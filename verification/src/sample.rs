//! The sample solution: the official scorer of a walk, a minimal game state
//! and the textbook searches (random, greedy, beam and chokudai search) over it.

use crate::clock;
use crate::grid::{dij, max_tile, spec_dij, spec_step, step};
use crate::random;
use std::cmp::Ordering;
use vstd::std_specs::cmp::{PartialEqSpecImpl, PartialOrdSpecImpl};
use vstd::prelude::*;

verus! {

/// Width and height of the grid.
pub const N: usize = 50;

/// A walk written as a string over `L`, `R`, `U`, `D`.
pub type Output = String;

/// The problem's input: start cell `s`, the tile id of each cell and the
/// points of each cell.
pub struct Input {
    pub s: (usize, usize),
    pub tiles: Vec<Vec<usize>>,
    pub ps: Vec<Vec<i32>>,
}

impl Input {
    /// Both grids are `N x N`.
    pub open spec fn grid_ok(&self) -> bool {
        &&& self.tiles@.len() == N
        &&& self.ps@.len() == N
        &&& forall|i: int| 0 <= i < N ==> #[trigger] self.tiles@[i]@.len() == N
        &&& forall|i: int| 0 <= i < N ==> #[trigger] self.ps@[i]@.len() == N
    }

    /// Both grids are `N x N` and the start cell lies on the grid.
    pub open spec fn wf(&self) -> bool {
        &&& self.grid_ok()
        &&& self.s.0 < N
        &&& self.s.1 < N
    }

    /// Every tile id is below `bound`.
    pub open spec fn tiles_below(&self, bound: int) -> bool {
        forall|i: int, j: int| 0 <= i < N && 0 <= j < N ==> #[trigger] self.tile(i, j) < bound
    }

    pub open spec fn tile(&self, i: int, j: int) -> usize {
        self.tiles@[i]@[j]
    }

    pub open spec fn point(&self, i: int, j: int) -> i32 {
        self.ps@[i]@[j]
    }
}

/// The move that a character of an output stands for, as the offsets that
/// are added (with wrap-around, so `!0` steps back by one) to the row and
/// the column; `None` for any character but `L`, `R`, `U`, `D`.
pub open spec fn char_delta(c: char) -> Option<(usize, usize)> {
    if c == 'L' {
        Some((0usize, usize::MAX))
    } else if c == 'R' {
        Some((0usize, 1usize))
    } else if c == 'U' {
        Some((usize::MAX, 0usize))
    } else if c == 'D' {
        Some((1usize, 0usize))
    } else {
        None
    }
}

/// Why the scorer stopped reading the output, if it did.
pub enum Stop {
    Running,
    Illegal,
    OutOfRange,
}

/// What the scorer knows after reading a prefix of the output.
pub struct Walk {
    pub i: usize,
    pub j: usize,
    pub score: i32,
    pub used: Seq<usize>,
    pub steps: Seq<(usize, usize)>,
    pub twice: bool,
    pub stop: Stop,
}

/// The walk before any character is read: the start cell is stepped on.
pub open spec fn walk_start(input: &Input) -> Walk {
    let (i, j) = input.s;
    let t = input.tile(i as int, j as int);
    Walk {
        i,
        j,
        score: input.point(i as int, j as int),
        used: Seq::new((N * N) as nat, |k: int| 0usize).update(t as int, 1usize),
        steps: seq![(i, j)],
        twice: false,
        stop: Stop::Running,
    }
}

/// One character read by the scorer.
pub open spec fn walk_step(input: &Input, w: Walk, c: char) -> Walk {
    match char_delta(c) {
        None => Walk { stop: Stop::Illegal, ..w },
        Some((di, dj)) => {
            let ni = w.i.wrapping_add(di);
            let nj = w.j.wrapping_add(dj);
            if ni >= N || nj >= N {
                Walk { stop: Stop::OutOfRange, ..w }
            } else {
                let t = input.tile(ni as int, nj as int);
                Walk {
                    i: ni,
                    j: nj,
                    score: w.score.wrapping_add(input.point(ni as int, nj as int)),
                    used: w.used.update(t as int, (w.used[t as int] + 1) as usize),
                    steps: w.steps.push((ni, nj)),
                    twice: w.twice || w.used[t as int] != 0,
                    stop: Stop::Running,
                }
            }
        },
    }
}

/// The scorer after reading the first `k` characters of `out`; once it has
/// stopped, further characters change nothing.
pub open spec fn walk(input: &Input, out: Seq<char>, k: nat) -> Walk
    decreases k,
{
    if k == 0 {
        walk_start(input)
    } else {
        let w = walk(input, out, (k - 1) as nat);
        if w.stop is Running {
            walk_step(input, w, out[k - 1])
        } else {
            w
        }
    }
}

proof fn lemma_walk_stopped_stays(input: &Input, out: Seq<char>, k: nat, m: nat)
    requires
        k <= m,
        !(walk(input, out, k).stop is Running),
    ensures
        walk(input, out, m) == walk(input, out, k),
    decreases m - k,
{
    if k < m {
        lemma_walk_stopped_stays(input, out, k, (m - 1) as nat);
    }
}

/// Scores the walk `out` from the start cell, as the contest's scorer does.
/// Returns the score, an error message (empty when there is none), how often
/// each tile was stepped on, and the cells visited. An illegal character or a
/// step off the grid ends the reading with score 0 and that error; stepping
/// on a tile twice gives score 0 but the walk is still read to the end.
/// Points are added with wrap-around, as in a release build.
pub fn compute_score_detail(input: &Input, out: &Output) -> (r: (i32, String, Vec<usize>, Vec<(usize, usize)>))
    requires
        input.wf(),
        input.tiles_below(N * N),
        out@.len() < usize::MAX,
    ensures
        ({
            let w = walk(input, out@, out@.len());
            &&& r.2@ == w.used
            &&& r.3@ == w.steps
            &&& match w.stop {
                Stop::Illegal => r.0 == 0 && r.1@ == "Illegal output"@,
                Stop::OutOfRange => r.0 == 0 && r.1@ == "Out of range"@,
                Stop::Running => if w.twice {
                    r.0 == 0 && r.1@ == "Stepped on the same tile twice"@
                } else {
                    r.0 == w.score && r.1@ == Seq::<char>::empty()
                },
            }
        }),
{
    let mut used: Vec<usize> = vec![0; N * N];
    let (mut i, mut j) = input.s;
    let t0 = input.tiles[i][j];
    used.set(t0, 1);
    let mut score = input.ps[i][j];
    let mut steps = vec![(i, j)];
    let mut err = String::new();
    let n = out.unicode_len();
    assert(used@ == walk_start(input).used);
    for k in 0..n
        invariant
            input.wf(),
            input.tiles_below(N * N),
            n == out@.len(),
            n < usize::MAX,
            ({
                let w = walk(input, out@, k as nat);
                &&& w.stop is Running
                &&& w.i == i
                &&& w.j == j
                &&& w.score == score
                &&& w.used == used@
                &&& w.steps == steps@
                &&& (w.twice <==> err@.len() > 0)
                &&& (w.twice ==> err@ == "Stepped on the same tile twice"@)
                &&& !w.twice ==> err@ == Seq::<char>::empty()
            }),
            used@.len() == N * N,
            steps@.len() == k + 1,
            forall|t: int| 0 <= t < N * N ==> #[trigger] used@[t] <= k + 1,
            i < N,
            j < N,
    {
        let c = out.get_char(k);
        let ghost w = walk(input, out@, k as nat);
        let (di, dj): (usize, usize) = if c == 'L' {
            (0, usize::MAX)
        } else if c == 'R' {
            (0, 1)
        } else if c == 'U' {
            (usize::MAX, 0)
        } else if c == 'D' {
            (1, 0)
        } else {
            proof {
                lemma_walk_stopped_stays(input, out@, (k + 1) as nat, n as nat);
            }
            return (0, "Illegal output".to_owned(), used, steps);
        };
        i = i.wrapping_add(di);
        j = j.wrapping_add(dj);
        if i >= N || j >= N {
            proof {
                lemma_walk_stopped_stays(input, out@, (k + 1) as nat, n as nat);
            }
            return (0, "Out of range".to_owned(), used, steps);
        }
        steps.push((i, j));
        let t = input.tiles[i][j];
        if used[t] != 0 {
            err = "Stepped on the same tile twice".to_owned();
            proof {
                reveal_strlit("Stepped on the same tile twice");
            }
        }
        let u = used[t];
        used.set(t, u + 1);
        score = score.wrapping_add(input.ps[i][j]);
    }
    if !err.as_str().is_empty() {
        score = 0;
    }
    (score, err, used, steps)
}


/// A cell of the grid.
#[derive(Clone, Copy)]
pub struct Position {
    pub i_: usize,
    pub j_: usize,
}

/// The game state that the searches move through: the tiles stepped on, the
/// turn, the walker's cell, the score collected, the score the search ranks
/// states by, and the first move taken from the search's root.
#[allow(non_snake_case)]
pub struct TileState {
    M_: usize,
    END_TURN_: usize,
    seen: Vec<bool>,
    turn_: usize,
    pos_: Position,
    pub game_score_: i32,
    pub evaluate_score_: i32,
    pub first_action_: usize,
}

/// The mathematical value of a `TileState`.
pub struct TileStateView {
    pub m: usize,
    pub end_turn: usize,
    pub seen: Seq<bool>,
    pub turn: usize,
    pub pos: (usize, usize),
    pub game_score: i32,
    pub evaluate_score: i32,
    pub first_action: usize,
}

impl View for TileState {
    type V = TileStateView;

    closed spec fn view(&self) -> TileStateView {
        TileStateView {
            m: self.M_,
            end_turn: self.END_TURN_,
            seen: self.seen@,
            turn: self.turn_,
            pos: (self.pos_.i_, self.pos_.j_),
            game_score: self.game_score_,
            evaluate_score: self.evaluate_score_,
            first_action: self.first_action_,
        }
    }
}

impl TileStateView {
    /// The walker stands on the grid and every tile id indexes `seen`.
    pub open spec fn wf(self, input: &Input) -> bool {
        &&& input.grid_ok()
        &&& self.pos.0 < N
        &&& self.pos.1 < N
        &&& input.tiles_below(self.seen.len() as int)
    }

    pub open spec fn next_pos(self, action: usize) -> (usize, usize) {
        spec_step(self.pos.0, self.pos.1, action)
    }

    /// `action` leads onto the grid, onto a tile not yet seen.
    pub open spec fn is_legal(self, input: &Input, action: usize) -> bool {
        let (ni, nj) = self.next_pos(action);
        &&& action < 4
        &&& ni < N
        &&& nj < N
        &&& !self.seen[input.tile(ni as int, nj as int) as int]
    }

    /// The legal moves among the first `k`, in increasing order.
    pub open spec fn legal_upto(self, input: &Input, k: nat) -> Seq<usize>
        decreases k,
    {
        if k == 0 {
            seq![]
        } else {
            let p = self.legal_upto(input, (k - 1) as nat);
            if self.is_legal(input, (k - 1) as usize) {
                p.push((k - 1) as usize)
            } else {
                p
            }
        }
    }

    /// The legal moves, in increasing order.
    pub open spec fn legal_actions(self, input: &Input) -> Seq<usize> {
        self.legal_upto(input, 4)
    }

    /// The state after `action`: the walker moves, collects the points of
    /// the new cell (with wrap-around), records the new cell's tile as
    /// stepped on, and the turn advances.
    pub open spec fn advanced(self, input: &Input, action: usize) -> TileStateView {
        let (ni, nj) = self.next_pos(action);
        TileStateView {
            pos: (ni, nj),
            seen: self.seen.update(input.tile(ni as int, nj as int) as int, true),
            game_score: self.game_score.wrapping_add(input.point(ni as int, nj as int)),
            turn: self.turn.wrapping_add(1),
            ..self
        }
    }

    /// The state after its search score is set to its game score.
    pub open spec fn evaluated(self) -> TileStateView {
        TileStateView { evaluate_score: self.game_score, ..self }
    }

    pub open spec fn is_done(self) -> bool {
        self.turn == self.end_turn
    }
}

/// The legal moves are exactly the moves in `[0, 4)` that are legal, each once,
/// in increasing order.
pub proof fn lemma_legal_upto(v: TileStateView, input: &Input, k: nat)
    requires
        k <= 4,
    ensures
        forall|a: usize| #[trigger] v.legal_upto(input, k).contains(a) <==> (a < k && v.is_legal(input, a)),
        forall|x: int, y: int|
            0 <= x < y < v.legal_upto(input, k).len() ==> v.legal_upto(input, k)[x] < v.legal_upto(input, k)[y],
        v.legal_upto(input, k).len() <= k,
    decreases k,
{
    if k > 0 {
        lemma_legal_upto(v, input, (k - 1) as nat);
        let p = v.legal_upto(input, (k - 1) as nat);
        let q = v.legal_upto(input, k);
        if v.is_legal(input, (k - 1) as usize) {
            assert(q == p.push((k - 1) as usize));
            assert forall|a: usize| #[trigger] q.contains(a) <==> (a < k && v.is_legal(input, a)) by {
                if a == k - 1 {
                    assert(q[p.len() as int] == a);
                }
                if q.contains(a) && a != k - 1 {
                    let x = choose|x: int| 0 <= x < q.len() && q[x] == a;
                    assert(p[x] == a);
                    assert(p.contains(a));
                }
                if a < k - 1 && v.is_legal(input, a) {
                    assert(p.contains(a));
                    let x = choose|x: int| 0 <= x < p.len() && p[x] == a;
                    assert(q[x] == a);
                }
            }
            assert forall|x: int, y: int| 0 <= x < y < q.len() implies q[x] < q[y] by {
                if y == p.len() {
                    assert(p.contains(p[x]));
                } else {
                    assert(p[x] < p[y]);
                }
            }
        }
    }
}

impl Clone for TileState {
    fn clone(&self) -> (r: Self)
        ensures
            r@ == self@,
    {
        let r = TileState {
            M_: self.M_,
            END_TURN_: self.END_TURN_,
            seen: self.seen.clone(),
            turn_: self.turn_,
            pos_: self.pos_,
            game_score_: self.game_score_,
            evaluate_score_: self.evaluate_score_,
            first_action_: self.first_action_,
        };
        assert(r.seen@ =~= self.seen@);
        r
    }
}

impl TileState {
    /// A state at `pos` on turn 0 that has seen only the tile under `pos`;
    /// `seen` has one entry per tile id up to the largest one.
    pub fn new(input: &Input, end_turn: usize, pos: (usize, usize)) -> (r: Self)
        requires
            input.grid_ok(),
            input.tiles_below(usize::MAX as int),
            pos.0 < N,
            pos.1 < N,
        ensures
            forall|i: int, j: int| 0 <= i < N && 0 <= j < N ==> #[trigger] input.tile(i, j) < r@.m,
            exists|i: int, j: int| 0 <= i < N && 0 <= j < N && #[trigger] input.tile(i, j) == r@.m - 1,
            r@.seen.len() == r@.m,
            forall|t: int| 0 <= t < r@.m ==> #[trigger] r@.seen[t] == (t == input.tile(pos.0 as int, pos.1 as int)),
            r@.end_turn == end_turn,
            r@.turn == 0,
            r@.pos == pos,
            r@.game_score == input.point(pos.0 as int, pos.1 as int),
            r@.evaluate_score == 0,
            r@.first_action == usize::MAX,
            r@.wf(input),
    {
        let max_tile = max_tile(&input.tiles);
        proof {
            let (wi, wj) = choose|i: int, j: int| 0 <= i < N && 0 <= j < N && input.tiles@[i]@[j] == max_tile;
            assert(input.tile(wi, wj) == max_tile);
            assert(input.tile(pos.0 as int, pos.1 as int) <= max_tile);
            assert forall|i: int, j: int| 0 <= i < N && 0 <= j < N implies #[trigger] input.tile(i, j) <= max_tile by {
                assert(input.tiles@[i]@[j] <= max_tile);
            }
        }
        let m = max_tile + 1;
        let mut seen: Vec<bool> = vec![false; m];
        let t0 = input.tiles[pos.0][pos.1];
        seen.set(t0, true);
        TileState {
            M_: m,
            END_TURN_: end_turn,
            seen,
            turn_: 0,
            pos_: Position { i_: pos.0, j_: pos.1 },
            game_score_: input.ps[pos.0][pos.1],
            evaluate_score_: 0,
            first_action_: usize::MAX,
        }
    }

    /// Ranks the state by its game score.
    pub fn evaluate_score(&mut self)
        ensures
            final(self)@ == old(self)@.evaluated(),
    {
        self.evaluate_score_ = self.game_score_;
    }

    /// The game ends on the state's last turn.
    pub fn is_done(&self) -> (r: bool)
        ensures
            r == self@.is_done(),
    {
        self.turn_ == self.END_TURN_
    }

    /// Moves the walker one cell by `action`, collecting the cell's points and
    /// marking the cell's tile as stepped on.
    pub fn advance(&mut self, input: &Input, action: usize)
        requires
            old(self)@.wf(input),
            action < 4,
            old(self)@.next_pos(action).0 < N,
            old(self)@.next_pos(action).1 < N,
        ensures
            final(self)@ == old(self)@.advanced(input, action),
            final(self)@.wf(input),
    {
        let (di, dj) = dij(action);
        self.pos_.i_ = self.pos_.i_.wrapping_add(di);
        self.pos_.j_ = self.pos_.j_.wrapping_add(dj);
        self.game_score_ = self.game_score_.wrapping_add(input.ps[self.pos_.i_][self.pos_.j_]);
        assert(input.tile(self.pos_.i_ as int, self.pos_.j_ as int) < self.seen@.len());
        self.seen.set(input.tiles[self.pos_.i_][self.pos_.j_], true);
        self.turn_ = self.turn_.wrapping_add(1);
    }

    /// The moves that lead onto the grid and onto a tile not yet seen, in
    /// increasing order.
    pub fn legal_actions(&self, input: &Input) -> (r: Vec<usize>)
        requires
            self@.wf(input),
        ensures
            r@ == self@.legal_actions(input),
    {
        let mut actions: Vec<usize> = Vec::new();
        for action in 0..4usize
            invariant
                self@.wf(input),
                actions@ == self@.legal_upto(input, action as nat),
        {
            let (ni, nj) = step(self.pos_.i_, self.pos_.j_, action);
            if ni < N && nj < N {
                assert(input.tile(ni as int, nj as int) < self.seen@.len());
                if !self.seen[input.tiles[ni][nj]] {
                    actions.push(action);
                }
            }
        }
        actions
    }
}

/// Two states compare equal when their search scores are equal.
impl PartialEq for TileState {
    fn eq(&self, other: &Self) -> (r: bool) {
        self.evaluate_score_ == other.evaluate_score_
    }
}

impl PartialEqSpecImpl for TileState {
    open spec fn obeys_eq_spec() -> bool {
        true
    }

    open spec fn eq_spec(&self, other: &Self) -> bool {
        self@.evaluate_score == other@.evaluate_score
    }
}

impl Eq for TileState {

}

/// States are ordered by their search scores.
impl PartialOrd for TileState {
    fn partial_cmp(&self, other: &Self) -> (r: Option<Ordering>) {
        self.evaluate_score_.partial_cmp(&other.evaluate_score_)
    }
}

impl PartialOrdSpecImpl for TileState {
    open spec fn obeys_partial_cmp_spec() -> bool {
        true
    }

    open spec fn partial_cmp_spec(&self, other: &Self) -> Option<Ordering> {
        if self@.evaluate_score < other@.evaluate_score {
            Some(Ordering::Less)
        } else if self@.evaluate_score > other@.evaluate_score {
            Some(Ordering::Greater)
        } else {
            Some(Ordering::Equal)
        }
    }
}

/// A search score below every reachable one.
pub const INF: i32 = 1000000000;

/// The game score after `action`, which the greedy search ranks moves by.
pub open spec fn next_score(v: TileStateView, input: &Input, action: usize) -> i32 {
    v.advanced(input, action).game_score
}

/// Picks a legal move at random: the legal move at index `r % len` for a
/// random `r` in `[0, 100)`.
#[allow(non_snake_case)]
pub fn randomAction(rng: &mut rand_chacha::ChaCha20Rng, input: &Input, state: &TileState) -> (r: usize)
    requires
        state@.wf(input),
        state@.legal_actions(input).len() > 0,
    ensures
        exists|x: int|
            0 <= x < 100 && r == #[trigger] state@.legal_actions(input)[x % state@.legal_actions(input).len() as int],
{
    let legal_actions = state.legal_actions(input);
    let x = random::gen_range_i32(rng, 0, 100);
    let k = (x as usize) % legal_actions.len();
    assert(legal_actions@[x as int % legal_actions@.len() as int] == legal_actions@[k as int]);
    legal_actions[k]
}

/// `r` is the legal move of `v` whose next game score is highest (the first
/// such move), or `usize::MAX` when no legal move scores above `-INF`.
pub open spec fn greedy_picks(v: TileStateView, input: &Input, r: usize) -> bool {
    let acts = v.legal_actions(input);
    &&& r == usize::MAX <==> forall|k: int| 0 <= k < acts.len() ==> next_score(v, input, #[trigger] acts[k]) <= -INF
    &&& r != usize::MAX ==> exists|k: int| {
        &&& 0 <= k < acts.len()
        &&& #[trigger] acts[k] == r
        &&& next_score(v, input, r) > -INF
        &&& forall|m: int| 0 <= m < acts.len() ==> next_score(v, input, #[trigger] acts[m]) <= next_score(v, input, r)
        &&& forall|m: int| 0 <= m < k ==> next_score(v, input, #[trigger] acts[m]) < next_score(v, input, r)
    }
}

/// Picks the legal move whose next game score is highest, the first such
/// move on ties; `usize::MAX` when no legal move reaches a score above `-INF`.
#[allow(non_snake_case)]
pub fn greedyAction(input: &Input, state: &TileState) -> (r: usize)
    requires
        state@.wf(input),
    ensures
        greedy_picks(state@, input, r),
{
    let legal_actions = state.legal_actions(input);
    proof {
        lemma_legal_upto(state@, input, 4);
    }
    let mut best_score: i32 = -INF;
    let mut best_action: usize = usize::MAX;
    let ghost mut best_k: int = 0;
    let n = legal_actions.len();
    for idx in 0..n
        invariant
            state@.wf(input),
            n == legal_actions@.len(),
            legal_actions@ == state@.legal_actions(input),
            forall|a: usize| #[trigger] legal_actions@.contains(a) ==> (a < 4 && state@.is_legal(input, a)),
            best_action == usize::MAX ==> best_score == -INF,
            best_action == usize::MAX <==> forall|k: int| 0 <= k < idx ==> next_score(state@, input, #[trigger] legal_actions@[k]) <= -INF,
            best_action != usize::MAX ==> {
                &&& 0 <= best_k < idx
                &&& legal_actions@[best_k] == best_action
                &&& next_score(state@, input, best_action) == best_score
                &&& best_score > -INF
                &&& forall|m: int| 0 <= m < idx ==> next_score(state@, input, #[trigger] legal_actions@[m]) <= best_score
                &&& forall|m: int| 0 <= m < best_k ==> next_score(state@, input, #[trigger] legal_actions@[m]) < best_score
            },
    {
        let action = legal_actions[idx];
        assert(legal_actions@.contains(action));
        let mut now_state = state.clone();
        now_state.advance(input, action);
        now_state.evaluate_score();
        if now_state.evaluate_score_ > best_score {
            best_score = now_state.evaluate_score_;
            best_action = action;
            proof {
                best_k = idx as int;
            }
        }
    }
    best_action
}

/// The values of a sequence of states.
pub open spec fn views(s: Seq<TileState>) -> Seq<TileStateView> {
    s.map_values(|x: TileState| x@)
}

/// Every state of `layer` is well formed.
pub open spec fn all_wf(layer: Seq<TileStateView>, input: &Input) -> bool {
    forall|k: int| 0 <= k < layer.len() ==> (#[trigger] layer[k]).wf(input)
}

/// The index of the first state with the highest search score: the state
/// that the searches take next from a beam.
pub open spec fn best_index(layer: Seq<TileStateView>) -> int
    decreases layer.len(),
{
    if layer.len() <= 1 {
        0
    } else {
        let b = best_index(layer.drop_last());
        if layer.last().evaluate_score > layer[b].evaluate_score {
            layer.len() - 1
        } else {
            b
        }
    }
}

/// `best_index` picks a state of the highest score, and the first of them.
pub proof fn lemma_best_index(layer: Seq<TileStateView>)
    requires
        layer.len() > 0,
    ensures
        0 <= best_index(layer) < layer.len(),
        forall|k: int| 0 <= k < layer.len() ==> (#[trigger] layer[k]).evaluate_score <= layer[best_index(layer)].evaluate_score,
        forall|k: int| 0 <= k < best_index(layer) ==> (#[trigger] layer[k]).evaluate_score < layer[best_index(layer)].evaluate_score,
    decreases layer.len(),
{
    if layer.len() > 1 {
        let p = layer.drop_last();
        lemma_best_index(p);
        assert forall|k: int| 0 <= k < layer.len() - 1 implies #[trigger] layer[k] == p[k] by {}
    }
}

/// The child that the searches generate for a legal move `action` on
/// search step `t`: the state after the move, ranked by its game score, and
/// on the first step remembering the move as the first one.
pub open spec fn child(v: TileStateView, input: &Input, action: usize, t: nat) -> TileStateView {
    let c = v.advanced(input, action).evaluated();
    if t == 0 {
        TileStateView { first_action: action, ..c }
    } else {
        c
    }
}

/// The children of `v` on search step `t`, one per legal move, in the order
/// of the moves.
pub open spec fn children(v: TileStateView, input: &Input, t: nat) -> Seq<TileStateView> {
    v.legal_actions(input).map_values(|a: usize| child(v, input, a, t))
}

/// One beam step: up to `w` times the best state of `now` is taken out and
/// its children are appended to `next`.
pub open spec fn select_expand(input: &Input, now: Seq<TileStateView>, next: Seq<TileStateView>, w: nat, t: nat) -> Seq<TileStateView>
    decreases w,
{
    if w == 0 || now.len() == 0 {
        next
    } else {
        let b = best_index(now);
        select_expand(input, now.remove(b), next + children(now[b], input, t), (w - 1) as nat, t)
    }
}

/// The beam and the best state after `t` steps of beam search of width `w`
/// from `root`; `None` when the search does not get that far (a step left
/// no state, or the best state of an earlier step was final).
pub open spec fn beam_iter(input: &Input, root: TileStateView, w: nat, t: nat) -> Option<(Seq<TileStateView>, TileStateView)>
    decreases t,
{
    if t == 0 {
        Some((seq![root], root))
    } else {
        match beam_iter(input, root, w, (t - 1) as nat) {
            None => None,
            Some((now, best)) => {
                if t - 1 > 0 && best.is_done() {
                    None
                } else {
                    let next = select_expand(input, now, seq![], w, (t - 1) as nat);
                    if next.len() == 0 {
                        None
                    } else {
                        Some((next, next[best_index(next)]))
                    }
                }
            },
        }
    }
}

/// The best state with which beam search of width `w` and depth `d` ends,
/// looking from step `t` on: after `d` steps, or earlier at the first step
/// whose best state is final; `None` if a step leaves no state first.
pub open spec fn beam_outcome(input: &Input, root: TileStateView, w: nat, d: nat, t: nat) -> Option<TileStateView>
    decreases d - t,
{
    match beam_iter(input, root, w, t) {
        None => None,
        Some((_, b)) => if t >= d || (t >= 1 && b.is_done()) {
            Some(b)
        } else {
            beam_outcome(input, root, w, d, t + 1)
        },
    }
}

/// Every state that a beam search holds after its first step remembers a
/// first move, and all of them are well formed.
pub proof fn lemma_select_expand(input: &Input, now: Seq<TileStateView>, next: Seq<TileStateView>, w: nat, t: nat)
    requires
        all_wf(now, input),
        all_wf(next, input),
        t >= 1 ==> forall|k: int| 0 <= k < now.len() ==> (#[trigger] now[k]).first_action < 4,
        forall|k: int| 0 <= k < next.len() ==> (#[trigger] next[k]).first_action < 4,
    ensures
        all_wf(select_expand(input, now, next, w, t), input),
        forall|k: int| 0 <= k < select_expand(input, now, next, w, t).len() ==> (#[trigger] select_expand(input, now, next, w, t)[k]).first_action < 4,
    decreases w,
{
    if w > 0 && now.len() > 0 {
        let b = best_index(now);
        lemma_best_index(now);
        let v = now[b];
        let c = children(v, input, t);
        lemma_legal_upto(v, input, 4);
        assert forall|k: int| 0 <= k < c.len() implies (#[trigger] c[k]).wf(input) && c[k].first_action < 4 by {
            let a = v.legal_actions(input)[k];
            assert(v.legal_actions(input).contains(a));
        }
        let n2 = next + c;
        assert forall|k: int| 0 <= k < n2.len() implies (#[trigger] n2[k]).wf(input) && n2[k].first_action < 4 by {
            if k >= next.len() {
                assert(n2[k] == c[k - next.len()]);
            }
        }
        let r = now.remove(b);
        assert forall|k: int| 0 <= k < r.len() implies (#[trigger] r[k]).wf(input) && (t >= 1 ==> r[k].first_action < 4) by {
            if k < b {
                assert(r[k] == now[k]);
            } else {
                assert(r[k] == now[k + 1]);
            }
        }
        lemma_select_expand(input, r, n2, (w - 1) as nat, t);
    }
}

/// The best state of a beam after its first step remembers a first move.
pub proof fn lemma_beam_iter(input: &Input, root: TileStateView, w: nat, t: nat)
    requires
        root.wf(input),
    ensures
        beam_iter(input, root, w, t) matches Some((now, best)) ==> {
            &&& all_wf(now, input)
            &&& best.wf(input)
            &&& now.len() > 0
            &&& best == now[best_index(now)]
            &&& t >= 1 ==> forall|k: int| 0 <= k < now.len() ==> (#[trigger] now[k]).first_action < 4
            &&& t >= 1 ==> best.first_action < 4
        },
    decreases t,
{
    if t > 0 {
        lemma_beam_iter(input, root, w, (t - 1) as nat);
        if let Some((now, best)) = beam_iter(input, root, w, (t - 1) as nat) {
            lemma_select_expand(input, now, seq![], w, (t - 1) as nat);
            let next = select_expand(input, now, seq![], w, (t - 1) as nat);
            if next.len() > 0 {
                lemma_best_index(next);
            }
        }
    } else {
        assert(best_index(seq![root]) == 0);
    }
}

/// The index of the first state with the highest search score.
fn find_best(layer: &Vec<TileState>) -> (r: usize)
    requires
        layer@.len() > 0,
    ensures
        r == best_index(views(layer@)),
        r < layer@.len(),
{
    let mut best: usize = 0;
    let mut k: usize = 1;
    proof {
        assert(views(layer@).take(1).len() == 1);
    }
    while k < layer.len()
        invariant
            1 <= k <= layer@.len(),
            best == best_index(views(layer@).take(k as int)),
            best < k,
        decreases layer@.len() - k,
    {
        let ghost p = views(layer@).take(k as int);
        let ghost q = views(layer@).take(k + 1);
        proof {
            assert(q.drop_last() =~= p);
            lemma_best_index(p);
        }
        if layer[k].evaluate_score_ > layer[best].evaluate_score_ {
            best = k;
        }
        k = k + 1;
    }
    proof {
        assert(views(layer@).take(k as int) =~= views(layer@));
    }
    best
}

/// Takes the first state with the highest search score out of `layer`.
fn pop_best(layer: &mut Vec<TileState>) -> (r: TileState)
    requires
        old(layer)@.len() > 0,
    ensures
        r@ == views(old(layer)@)[best_index(views(old(layer)@))],
        views(final(layer)@) == views(old(layer)@).remove(best_index(views(old(layer)@))),
{
    let b = find_best(layer);
    let r = layer.remove(b);
    proof {
        assert(views(layer@) =~= views(old(layer)@).remove(b as int));
    }
    r
}

/// Appends the children of `now_state` on search step `t` to `next`.
fn push_children(input: &Input, now_state: &TileState, t: usize, next: &mut Vec<TileState>)
    requires
        now_state@.wf(input),
    ensures
        views(final(next)@) == views(old(next)@) + children(now_state@, input, t as nat),
{
    let legal_actions = now_state.legal_actions(input);
    proof {
        lemma_legal_upto(now_state@, input, 4);
    }
    let ghost c = children(now_state@, input, t as nat);
    let n = legal_actions.len();
    for k in 0..n
        invariant
            now_state@.wf(input),
            n == legal_actions@.len(),
            legal_actions@ == now_state@.legal_actions(input),
            c == children(now_state@, input, t as nat),
            forall|a: usize| #[trigger] legal_actions@.contains(a) ==> (a < 4 && now_state@.is_legal(input, a)),
            views(next@) == views(old(next)@) + c.take(k as int),
    {
        let action = legal_actions[k];
        assert(legal_actions@.contains(action));
        let mut next_state = now_state.clone();
        next_state.advance(input, action);
        next_state.evaluate_score();
        if t == 0 {
            next_state.first_action_ = action;
        }
        assert(next_state@ == c[k as int]);
        let ghost prev = next@;
        next.push(next_state);
        assert(views(next@) =~= views(prev).push(c[k as int]));
        assert(c.take(k + 1) =~= c.take(k as int).push(c[k as int]));
        assert(views(next@) =~= views(old(next)@) + c.take(k + 1));
    }
    assert(c.take(n as int) =~= c);
}

/// One beam step: up to `beam_width` times the best state of `now_beam` is
/// taken out and its children are appended to the returned beam.
fn expand_beam(input: &Input, now_beam: &mut Vec<TileState>, beam_width: usize, t: usize) -> (next: Vec<TileState>)
    requires
        all_wf(views(old(now_beam)@), input),
    ensures
        views(next@) == select_expand(input, views(old(now_beam)@), seq![], beam_width as nat, t as nat),
{
    let mut next_beam: Vec<TileState> = Vec::new();
    let mut k: usize = 0;
    while k < beam_width && now_beam.len() > 0
        invariant
            k <= beam_width,
            all_wf(views(now_beam@), input),
            select_expand(input, views(now_beam@), views(next_beam@), (beam_width - k) as nat, t as nat)
                == select_expand(input, views(old(now_beam)@), seq![], beam_width as nat, t as nat),
        decreases beam_width - k,
    {
        proof {
            lemma_best_index(views(now_beam@));
        }
        let ghost before = views(now_beam@);
        let now_state = pop_best(now_beam);
        proof {
            let r = views(now_beam@);
            assert forall|x: int| 0 <= x < r.len() implies (#[trigger] r[x]).wf(input) by {
                if x < best_index(before) {
                    assert(r[x] == before[x]);
                } else {
                    assert(r[x] == before[x + 1]);
                }
            }
        }
        push_children(input, &now_state, t, &mut next_beam);
        k = k + 1;
    }
    next_beam
}

/// Beam search of width `beam_width` and depth `beam_depth` from `state`:
/// returns the first move of the best state with which the search ends.
/// Panics (excluded here) when a step leaves no state, or when the depth is
/// 0 and `state` remembers no first move.
#[allow(non_snake_case)]
pub fn beamSearchAction(input: &Input, state: &TileState, beam_width: usize, beam_depth: usize) -> (r: usize)
    requires
        state@.wf(input),
        beam_outcome(input, state@, beam_width as nat, beam_depth as nat, 0) is Some,
        beam_depth == 0 ==> state@.first_action != usize::MAX,
    ensures
        r == beam_outcome(input, state@, beam_width as nat, beam_depth as nat, 0)->0.first_action,
        beam_depth >= 1 ==> r < 4,
{
    let ghost root = state@;
    let ghost w = beam_width as nat;
    let ghost d = beam_depth as nat;
    let mut now_beam: Vec<TileState> = Vec::new();
    now_beam.push(state.clone());
    let mut best_state = state.clone();
    let mut t: usize = 0;
    let mut done = false;
    proof {
        assert(views(now_beam@) =~= seq![root]);
    }
    while t < beam_depth && !done
        invariant
            root.wf(input),
            root == state@,
            w == beam_width as nat,
            d == beam_depth as nat,
            t <= beam_depth,
            beam_iter(input, root, w, t as nat) == Some((views(now_beam@), best_state@)),
            beam_outcome(input, root, w, d, t as nat) == beam_outcome(input, root, w, d, 0),
            beam_outcome(input, root, w, d, 0) is Some,
            done ==> t >= 1 && best_state@.is_done(),
            !done ==> t == 0 || !best_state@.is_done(),
        decreases beam_depth - t,
    {
        proof {
            lemma_beam_iter(input, root, w, t as nat);
        }
        let ghost cur = views(now_beam@);
        let ghost cur_best = best_state@;
        let next_beam = expand_beam(input, &mut now_beam, beam_width, t);
        now_beam = next_beam;
        proof {
            let tn = (t + 1) as nat;
            assert(beam_iter(input, root, w, (tn - 1) as nat) == Some((cur, cur_best)));
            assert(views(now_beam@) == select_expand(input, cur, seq![], w, (tn - 1) as nat));
        }
        if now_beam.len() == 0 {
            proof {
                assert(beam_iter(input, root, w, (t + 1) as nat) is None);
                assert(beam_outcome(input, root, w, d, (t + 1) as nat) is None);
                assert(beam_outcome(input, root, w, d, t as nat) is None);
            }
        }
        let b = find_best(&now_beam);
        best_state = now_beam[b].clone();
        t = t + 1;
        proof {
            assert(beam_iter(input, root, w, t as nat) == Some((views(now_beam@), best_state@)));
        }
        if best_state.is_done() {
            done = true;
        }
    }
    proof {
        lemma_beam_iter(input, root, w, t as nat);
    }
    let ans_action = best_state.first_action_;
    ans_action
}

/// Measures the time since it was made against a limit in milliseconds.
pub struct TimeKeeper {
    start_time_: std::time::Instant,
    time_threshold_: u64,
}

impl TimeKeeper {
    /// The limit, in milliseconds.
    pub closed spec fn threshold_ms(&self) -> nat {
        self.time_threshold_ as nat
    }

    /// Starts measuring now, with a limit of `time_threshold` milliseconds.
    pub fn new(time_threshold: u64) -> (r: Self)
        ensures
            r.threshold_ms() == time_threshold,
    {
        TimeKeeper { start_time_: clock::instant_now(), time_threshold_: time_threshold }
    }

    /// `elapsed_nanos` nanoseconds reach the limit.
    pub open spec fn over_after(&self, elapsed_nanos: u128) -> bool {
        elapsed_nanos >= self.threshold_ms() * 1_000_000
    }

    /// Whether `elapsed_nanos` nanoseconds reach the limit.
    pub fn is_over_after(&self, elapsed_nanos: u128) -> (r: bool)
        ensures
            r == (elapsed_nanos >= self.threshold_ms() * 1_000_000),
    {
        elapsed_nanos >= (self.time_threshold_ as u128) * 1_000_000
    }

    /// Whether the time since this keeper was made has reached the limit:
    /// the elapsed time, read from the clock in nanoseconds, is compared with
    /// the limit (so a limit of 0 is always reached).
    pub fn is_time_over(&self) -> (r: bool)
        ensures
            exists|elapsed_nanos: u128| r == #[trigger] self.over_after(elapsed_nanos),
    {
        let elapsed_nanos = clock::elapsed_nanos(&self.start_time_);
        let r = self.is_over_after(elapsed_nanos);
        assert(r == self.over_after(elapsed_nanos));
        r
    }
}

/// From every state that beam search of width `w` reaches from `root` and
/// continues from, the next step leaves some state.
pub open spec fn beam_never_dies(input: &Input, root: TileStateView, w: nat) -> bool {
    forall|t: nat|
        #[trigger] beam_iter(input, root, w, t) matches Some((_, b)) && (t == 0 || !b.is_done())
            ==> beam_iter(input, root, w, t + 1) is Some
}

/// Beam search of width `beam_width` from `state` until the best state is
/// final or `time_threshold` milliseconds have passed. Whatever the clock
/// says, the result is the first move of the best state after some number
/// of completed steps (the root itself when time is up at once). With a
/// limit of 0 the time is up at the first check, before anything is
/// expanded, and the result is `state`'s own first move.
/// Panics (excluded here) when a step leaves no state before the time is up.
#[allow(non_snake_case)]
pub fn beamSearchActionWithTimeThreshold(input: &Input, state: &TileState, beam_width: usize, time_threshold: u64) -> (r: usize)
    requires
        state@.wf(input),
        beam_width >= 1,
        time_threshold > 0 ==> beam_never_dies(input, state@, beam_width as nat),
    ensures
        exists|t: nat| #[trigger] beam_iter(input, state@, beam_width as nat, t) matches Some((_, b)) && r == b.first_action,
        time_threshold == 0 ==> r == state@.first_action,
{
    beam_search_until_final_or_time(input, state, beam_width, time_threshold).0
}

/// Beam search of width `beam_width` from `state` until the best state is
/// final or `time_threshold` milliseconds have passed; also says whether
/// the search was cut short by the clock. When it was not, the answer is
/// that of beam search without a depth limit: the first move of the best
/// state of the first step whose best state is final. With a limit of 0 the
/// time is up at the first check and the answer is `state`'s own first move.
pub fn beam_search_until_final_or_time(input: &Input, state: &TileState, beam_width: usize, time_threshold: u64) -> (r: (usize, bool))
    requires
        state@.wf(input),
        beam_width >= 1,
        time_threshold > 0 ==> beam_never_dies(input, state@, beam_width as nat),
    ensures
        exists|t: nat| #[trigger] beam_iter(input, state@, beam_width as nat, t) matches Some((_, b)) && r.0 == b.first_action,
        time_threshold == 0 ==> r.0 == state@.first_action && r.1,
        !r.1 ==> (beam_outcome(input, state@, beam_width as nat, usize::MAX as nat, 0) matches Some(b) && r.0 == b.first_action),
{
    let ghost root = state@;
    let ghost w = beam_width as nat;
    let timekeeper = TimeKeeper::new(time_threshold);
    let mut now_beam: Vec<TileState> = Vec::new();
    let mut best_state = state.clone();
    now_beam.push(state.clone());
    proof {
        assert(views(now_beam@) =~= seq![root]);
    }
    let mut t: usize = 0;
    let mut done = false;
    while t < usize::MAX && !done
        invariant
            root.wf(input),
            root == state@,
            w == beam_width as nat,
            beam_width >= 1,
            timekeeper.threshold_ms() == time_threshold,
            time_threshold > 0 ==> beam_never_dies(input, root, w),
            time_threshold == 0 ==> t == 0,
            beam_iter(input, root, w, t as nat) == Some((views(now_beam@), best_state@)),
            done ==> t >= 1 && best_state@.is_done(),
            !done ==> t == 0 || !best_state@.is_done(),
            beam_outcome(input, root, w, usize::MAX as nat, t as nat) == beam_outcome(input, root, w, usize::MAX as nat, 0),
        decreases usize::MAX - t,
    {
        proof {
            lemma_beam_iter(input, root, w, t as nat);
        }
        let ghost cur = views(now_beam@);
        let ghost cur_best = best_state@;
        let mut next_beam: Vec<TileState> = Vec::new();
        let mut k: usize = 0;
        while k < beam_width && now_beam.len() > 0
            invariant
                k <= beam_width,
                all_wf(views(now_beam@), input),
                select_expand(input, views(now_beam@), views(next_beam@), (beam_width - k) as nat, t as nat)
                    == select_expand(input, cur, seq![], beam_width as nat, t as nat),
                beam_iter(input, root, w, t as nat) == Some((cur, cur_best)),
                root == state@,
                w == beam_width as nat,
                best_state@ == cur_best,
                beam_width >= 1,
                cur.len() > 0,
                k == 0 ==> views(now_beam@) == cur,
                timekeeper.threshold_ms() == time_threshold,
                time_threshold == 0 ==> t == 0 && k == 0,
            decreases beam_width - k,
        {
            let over = timekeeper.is_time_over();
            proof {
                if time_threshold == 0 {
                    let e = choose|e: u128| over == #[trigger] timekeeper.over_after(e);
                    assert(over);
                }
            }
            if over {
                proof {
                    assert(beam_iter(input, state@, beam_width as nat, t as nat) == Some((cur, cur_best)));
                }
                return (best_state.first_action_, true);
            }
            proof {
                lemma_best_index(views(now_beam@));
            }
            let ghost before = views(now_beam@);
            let now_state = pop_best(&mut now_beam);
            proof {
                let rest = views(now_beam@);
                assert forall|x: int| 0 <= x < rest.len() implies (#[trigger] rest[x]).wf(input) by {
                    if x < best_index(before) {
                        assert(rest[x] == before[x]);
                    } else {
                        assert(rest[x] == before[x + 1]);
                    }
                }
            }
            push_children(input, &now_state, t, &mut next_beam);
            k = k + 1;
        }
        now_beam = next_beam;
        proof {
            assert(time_threshold > 0);
            assert(beam_iter(input, root, w, ((t + 1) as nat - 1) as nat) == Some((cur, cur_best)));
            assert(beam_iter(input, root, w, (t + 1) as nat) is Some);
        }
        let b = find_best(&now_beam);
        best_state = now_beam[b].clone();
        proof {
            assert(beam_outcome(input, root, w, usize::MAX as nat, t as nat) == beam_outcome(input, root, w, usize::MAX as nat, (t + 1) as nat));
        }
        t = t + 1;
        proof {
            assert(beam_iter(input, root, w, t as nat) == Some((views(now_beam@), best_state@)));
        }
        if best_state.is_done() {
            done = true;
        }
    }
    let ans_action = best_state.first_action_;
    proof {
        lemma_beam_iter(input, root, w, t as nat);
        assert(t >= 1);
        assert(beam_outcome(input, root, w, usize::MAX as nat, t as nat) == Some(best_state@));
    }
    (ans_action, false)
}

/// The children of a well-formed state are well formed and remember a
/// first move.
pub proof fn lemma_children(v: TileStateView, input: &Input, t: nat)
    requires
        v.wf(input),
        t >= 1 ==> v.first_action < 4,
    ensures
        all_wf(children(v, input, t), input),
        forall|k: int| 0 <= k < children(v, input, t).len() ==> (#[trigger] children(v, input, t)[k]).first_action < 4,
{
    let c = children(v, input, t);
    lemma_legal_upto(v, input, 4);
    assert forall|k: int| 0 <= k < c.len() implies (#[trigger] c[k]).wf(input) && c[k].first_action < 4 by {
        let a = v.legal_actions(input)[k];
        assert(v.legal_actions(input).contains(a));
    }
}

/// The values of a sequence of beams.
pub open spec fn views2(s: Seq<Vec<TileState>>) -> Seq<Seq<TileStateView>> {
    s.map_values(|l: Vec<TileState>| views(l@))
}

/// Every state of every beam is well formed.
pub open spec fn beams_wf(beams: Seq<Seq<TileStateView>>, input: &Input) -> bool {
    forall|t: int| 0 <= t < beams.len() ==> all_wf(#[trigger] beams[t], input)
}

/// The beams that chokudai search starts from: the root in beam 0 and
/// `d` empty beams after it.
pub open spec fn chokudai_start(root: TileStateView, d: nat) -> Seq<Seq<TileStateView>> {
    Seq::new(d + 1, |t: int| if t == 0 { seq![root] } else { Seq::<TileStateView>::empty() })
}

/// Chokudai search's work on beam `t`: up to `w` times, unless the best
/// state of beam `t` is final, that state is taken out and its children are
/// appended to beam `t + 1`.
pub open spec fn chokudai_step(input: &Input, beams: Seq<Seq<TileStateView>>, t: nat, w: nat) -> Seq<Seq<TileStateView>>
    decreases w,
{
    let layer = beams[t as int];
    if w == 0 || layer.len() == 0 {
        beams
    } else if layer[best_index(layer)].is_done() {
        beams
    } else {
        let b = best_index(layer);
        chokudai_step(
            input,
            beams.update(t as int, layer.remove(b)).update(t as int + 1, beams[t as int + 1] + children(layer[b], input, t)),
            t,
            (w - 1) as nat,
        )
    }
}

/// One round of chokudai search: its work on beams `t`, `t + 1`, ..., `d - 1`.
pub open spec fn chokudai_sweep(input: &Input, beams: Seq<Seq<TileStateView>>, t: nat, d: nat, w: nat) -> Seq<Seq<TileStateView>>
    decreases d - t,
{
    if t >= d {
        beams
    } else {
        chokudai_sweep(input, chokudai_step(input, beams, t, w), t + 1, d, w)
    }
}

/// `n` rounds of chokudai search.
pub open spec fn chokudai_rounds(input: &Input, beams: Seq<Seq<TileStateView>>, n: nat, d: nat, w: nat) -> Seq<Seq<TileStateView>>
    decreases n,
{
    if n == 0 {
        beams
    } else {
        chokudai_rounds(input, chokudai_sweep(input, beams, 0, d, w), (n - 1) as nat, d, w)
    }
}

/// The first move of the best state of the deepest non-empty beam among
/// beams `0..=t`, if any.
pub open spec fn deepest_best_action(beams: Seq<Seq<TileStateView>>, t: int) -> Option<usize>
    decreases t + 1,
{
    if t < 0 {
        None
    } else if beams[t].len() > 0 {
        Some(beams[t][best_index(beams[t])].first_action)
    } else {
        deepest_best_action(beams, t - 1)
    }
}

proof fn lemma_chokudai_step_wf(input: &Input, beams: Seq<Seq<TileStateView>>, t: nat, w: nat)
    requires
        t + 1 < beams.len(),
        beams_wf(beams, input),
        forall|s: int, k: int| 1 <= s < beams.len() && 0 <= k < beams[s].len() ==> (#[trigger] beams[s][k]).first_action < 4,
    ensures
        beams_wf(chokudai_step(input, beams, t, w), input),
        chokudai_step(input, beams, t, w).len() == beams.len(),
        forall|s: int, k: int|
            1 <= s < beams.len() && 0 <= k < chokudai_step(input, beams, t, w)[s].len()
                ==> (#[trigger] chokudai_step(input, beams, t, w)[s][k]).first_action < 4,
    decreases w,
{
    let layer = beams[t as int];
    if w > 0 && layer.len() > 0 && !layer[best_index(layer)].is_done() {
        let b = best_index(layer);
        lemma_best_index(layer);
        lemma_children(layer[b], input, t);
        let c = children(layer[b], input, t);
        let r = layer.remove(b);
        let n2 = beams[t as int + 1] + c;
        let nb = beams.update(t as int, r).update(t as int + 1, n2);
        assert(all_wf(layer, input));
        assert forall|x: int| 0 <= x < r.len() implies (#[trigger] r[x]).wf(input) && (t >= 1 ==> r[x].first_action < 4) by {
            if x < b {
                assert(r[x] == layer[x]);
            } else {
                assert(r[x] == layer[x + 1]);
            }
        }
        assert(all_wf(beams[t as int + 1], input));
        assert forall|x: int| 0 <= x < n2.len() implies (#[trigger] n2[x]).wf(input) && n2[x].first_action < 4 by {
            if x >= beams[t as int + 1].len() {
                assert(n2[x] == c[x - beams[t as int + 1].len()]);
            } else {
                assert(n2[x] == beams[t as int + 1][x]);
            }
        }
        assert forall|s: int| 0 <= s < nb.len() implies all_wf(#[trigger] nb[s], input) by {
            if s != t && s != t + 1 {
                assert(nb[s] == beams[s]);
            }
        }
        assert forall|s: int, k: int| 1 <= s < nb.len() && 0 <= k < nb[s].len() implies (#[trigger] nb[s][k]).first_action < 4 by {
            if s != t && s != t + 1 {
                assert(nb[s] == beams[s]);
            }
        }
        lemma_chokudai_step_wf(input, nb, t, (w - 1) as nat);
    }
}

proof fn lemma_chokudai_sweep_wf(input: &Input, beams: Seq<Seq<TileStateView>>, t: nat, d: nat, w: nat)
    requires
        d + 1 == beams.len(),
        beams_wf(beams, input),
        forall|s: int, k: int| 1 <= s < beams.len() && 0 <= k < beams[s].len() ==> (#[trigger] beams[s][k]).first_action < 4,
    ensures
        beams_wf(chokudai_sweep(input, beams, t, d, w), input),
        chokudai_sweep(input, beams, t, d, w).len() == beams.len(),
        forall|s: int, k: int|
            1 <= s < beams.len() && 0 <= k < chokudai_sweep(input, beams, t, d, w)[s].len()
                ==> (#[trigger] chokudai_sweep(input, beams, t, d, w)[s][k]).first_action < 4,
    decreases d - t,
{
    if t < d {
        lemma_chokudai_step_wf(input, beams, t, w);
        lemma_chokudai_sweep_wf(input, chokudai_step(input, beams, t, w), t + 1, d, w);
    }
}

/// Chokudai search's work on beam `t` of `beam`.
fn chokudai_step_exec(input: &Input, beam: &mut Vec<Vec<TileState>>, t: usize, beam_width: usize)
    requires
        t + 1 < old(beam)@.len(),
        beams_wf(views2(old(beam)@), input),
    ensures
        views2(final(beam)@) == chokudai_step(input, views2(old(beam)@), t as nat, beam_width as nat),
{
    let ghost start = views2(beam@);
    let ghost b0 = beam@;
    let len = beam.len();
    let t1 = t + 1;
    let mut cur: Vec<TileState> = Vec::new();
    std::mem::swap(&mut cur, &mut beam[t]);
    let mut nxt: Vec<TileState> = Vec::new();
    std::mem::swap(&mut nxt, &mut beam[t1]);
    assert(views(cur@) == start[t as int]);
    assert(views(nxt@) == start[t + 1]);
    assert(all_wf(start[t as int], input));
    assert(start.update(t as int, views(cur@)).update(t as int + 1, views(nxt@)) =~= start);
    let mut k: usize = 0;
    let mut stop = false;
    while k < beam_width && !stop && cur.len() > 0
        invariant
            k <= beam_width,
            t + 1 < start.len(),
            all_wf(views(cur@), input),
            stop ==> chokudai_step(input, start.update(t as int, views(cur@)).update(t as int + 1, views(nxt@)), t as nat, (beam_width - k) as nat)
                == start.update(t as int, views(cur@)).update(t as int + 1, views(nxt@)),
            chokudai_step(input, start.update(t as int, views(cur@)).update(t as int + 1, views(nxt@)), t as nat, (beam_width - k) as nat)
                == chokudai_step(input, start, t as nat, beam_width as nat),
        decreases beam_width - k, !stop as int,
    {
        let ghost bs = start.update(t as int, views(cur@)).update(t as int + 1, views(nxt@));
        proof {
            assert(bs[t as int] == views(cur@));
            assert(bs[t + 1] == views(nxt@));
            lemma_best_index(views(cur@));
        }
        let b = find_best(&cur);
        if cur[b].is_done() {
            stop = true;
        } else {
            let ghost before = views(cur@);
            let now_state = cur.remove(b);
            proof {
                assert(views(cur@) =~= before.remove(b as int));
                let rest = views(cur@);
                assert forall|x: int| 0 <= x < rest.len() implies (#[trigger] rest[x]).wf(input) by {
                    if x < b {
                        assert(rest[x] == before[x]);
                    } else {
                        assert(rest[x] == before[x + 1]);
                    }
                }
            }
            push_children(input, &now_state, t, &mut nxt);
            proof {
                let bs2 = start.update(t as int, views(cur@)).update(t as int + 1, views(nxt@));
                assert(bs2 =~= bs.update(t as int, before.remove(b as int)).update(t as int + 1, bs[t + 1] + children(before[b as int], input, t as nat)));
            }
            k = k + 1;
        }
    }
    let ghost mid = beam@;
    let ghost cur_v = cur@;
    let ghost nxt_v = nxt@;
    let ghost vcur = views(cur@);
    let ghost vnxt = views(nxt@);
    std::mem::swap(&mut cur, &mut beam[t]);
    std::mem::swap(&mut nxt, &mut beam[t1]);
    proof {
        assert(mid.len() == b0.len());
        assert forall|x: int| 0 <= x < b0.len() && x != t && x != t1 implies #[trigger] beam@[x] == b0[x] by {}
        assert(beam@[t as int]@ == cur_v);
        assert(beam@[t1 as int]@ == nxt_v);
        assert(views2(beam@) =~= start.update(t as int, vcur).update(t as int + 1, vnxt));
    }
}


/// The first move of the best state of the deepest non-empty beam.
fn deepest_answer(beam: &Vec<Vec<TileState>>) -> (r: Option<usize>)
    requires
        beam@.len() > 0,
    ensures
        r == deepest_best_action(views2(beam@), beam@.len() - 1),
{
    let mut t = beam.len();
    while t > 0
        invariant
            0 <= t <= beam@.len(),
            deepest_best_action(views2(beam@), t - 1) == deepest_best_action(views2(beam@), beam@.len() - 1),
        decreases t,
    {
        t = t - 1;
        assert(views2(beam@)[t as int] == views(beam@[t as int]@));
        if beam[t].len() > 0 {
            let b = find_best(&beam[t]);
            return Some(beam[t][b].first_action_);
        }
    }
    None
}

/// One round of chokudai search over `beam`, which holds `beam_depth + 1` beams.
fn chokudai_sweep_exec(input: &Input, beam: &mut Vec<Vec<TileState>>, beam_width: usize, beam_depth: usize)
    requires
        old(beam)@.len() == beam_depth + 1,
        beams_wf(views2(old(beam)@), input),
        forall|s: int, k: int| 1 <= s < old(beam)@.len() && 0 <= k < views2(old(beam)@)[s].len() ==> (#[trigger] views2(old(beam)@)[s][k]).first_action < 4,
    ensures
        views2(final(beam)@) == chokudai_sweep(input, views2(old(beam)@), 0, beam_depth as nat, beam_width as nat),
        final(beam)@.len() == beam_depth + 1,
        beams_wf(views2(final(beam)@), input),
        forall|s: int, k: int| 1 <= s < final(beam)@.len() && 0 <= k < views2(final(beam)@)[s].len() ==> (#[trigger] views2(final(beam)@)[s][k]).first_action < 4,
{
    let ghost target = chokudai_sweep(input, views2(beam@), 0, beam_depth as nat, beam_width as nat);
    proof {
        lemma_chokudai_sweep_wf(input, views2(beam@), 0, beam_depth as nat, beam_width as nat);
    }
    for t in 0..beam_depth
        invariant
            beam@.len() == beam_depth + 1,
            beams_wf(views2(beam@), input),
            forall|s: int, k: int| 1 <= s < beam@.len() && 0 <= k < views2(beam@)[s].len() ==> (#[trigger] views2(beam@)[s][k]).first_action < 4,
            chokudai_sweep(input, views2(beam@), t as nat, beam_depth as nat, beam_width as nat) == target,
    {
        proof {
            lemma_chokudai_step_wf(input, views2(beam@), t as nat, beam_width as nat);
        }
        chokudai_step_exec(input, beam, t, beam_width);
    }
}

/// Chokudai search: `beam_number` rounds over `beam_depth + 1` beams of
/// width `beam_width`, starting from `state` in beam 0. Returns the first move
/// of the best state of the deepest non-empty beam, or `usize::MAX` when all
/// beams are empty.
#[allow(non_snake_case)]
pub fn chokudaiSearchAction(input: &Input, state: &TileState, beam_width: usize, beam_depth: usize, beam_number: usize) -> (r: usize)
    requires
        state@.wf(input),
        beam_depth < usize::MAX,
    ensures
        r == match deepest_best_action(
            chokudai_rounds(input, chokudai_start(state@, beam_depth as nat), beam_number as nat, beam_depth as nat, beam_width as nat),
            beam_depth as int,
        ) {
            Some(a) => a,
            None => usize::MAX,
        },
{
    let ghost w = beam_width as nat;
    let ghost d = beam_depth as nat;
    let mut beam: Vec<Vec<TileState>> = Vec::new();
    let mut first: Vec<TileState> = Vec::new();
    first.push(state.clone());
    assert(views(first@) =~= seq![state@]);
    beam.push(first);
    assert(views2(beam@)[0] == views(first@));
    let mut k: usize = 0;
    while k < beam_depth
        invariant
            k <= beam_depth,
            beam@.len() == k + 1,
            views2(beam@) =~= Seq::new((k + 1) as nat, |t: int| if t == 0 { seq![state@] } else { Seq::<TileStateView>::empty() }),
        decreases beam_depth - k,
    {
        let empty: Vec<TileState> = Vec::new();
        assert(views(empty@) =~= Seq::<TileStateView>::empty());
        let ghost prev = beam@;
        beam.push(empty);
        assert(views2(beam@) =~= views2(prev).push(Seq::<TileStateView>::empty()));
        k = k + 1;
    }
    let ghost target = chokudai_rounds(input, chokudai_start(state@, d), beam_number as nat, d, w);
    proof {
        assert(views2(beam@) =~= chokudai_start(state@, d));
    }
    for i in 0..beam_number
        invariant
            beam@.len() == beam_depth + 1,
            w == beam_width as nat,
            d == beam_depth as nat,
            beams_wf(views2(beam@), input),
            forall|s: int, k: int| 1 <= s < beam@.len() && 0 <= k < views2(beam@)[s].len() ==> (#[trigger] views2(beam@)[s][k]).first_action < 4,
            chokudai_rounds(input, views2(beam@), (beam_number - i) as nat, d, w) == target,
    {
        chokudai_sweep_exec(input, &mut beam, beam_width, beam_depth);
    }
    match deepest_answer(&beam) {
        Some(a) => a,
        None => usize::MAX,
    }
}


/// Chokudai search over `beam_depth + 1` beams of width `beam_width` from
/// `state`, in rounds until `time_threshold` milliseconds have passed (at
/// least one round). Whatever the clock says, the result is what chokudai
/// search answers after some number of rounds, with 6 in place of "no move"
/// when all beams are empty. With a limit of 0 exactly one round is made.
#[allow(non_snake_case)]
pub fn chokudaiSearchActionWithTimeThreshold(
    input: &Input,
    state: &TileState,
    beam_width: usize,
    beam_depth: usize,
    time_threshold: u64,
) -> (r: usize)
    requires
        state@.wf(input),
        beam_depth < usize::MAX,
    ensures
        exists|n: nat|
            1 <= n && r == match deepest_best_action(
                #[trigger] chokudai_rounds(input, chokudai_start(state@, beam_depth as nat), n, beam_depth as nat, beam_width as nat),
                beam_depth as int,
            ) {
                Some(a) => a,
                None => 6,
            },
        time_threshold == 0 ==> r == match deepest_best_action(
            chokudai_rounds(input, chokudai_start(state@, beam_depth as nat), 1, beam_depth as nat, beam_width as nat),
            beam_depth as int,
        ) {
            Some(a) => a,
            None => 6,
        },
{
    let ghost w = beam_width as nat;
    let ghost d = beam_depth as nat;
    let timekeeper = TimeKeeper::new(time_threshold);
    let mut beam: Vec<Vec<TileState>> = Vec::new();
    let mut first: Vec<TileState> = Vec::new();
    first.push(state.clone());
    assert(views(first@) =~= seq![state@]);
    beam.push(first);
    assert(views2(beam@)[0] == views(first@));
    let mut k: usize = 0;
    while k < beam_depth
        invariant
            k <= beam_depth,
            beam@.len() == k + 1,
            views2(beam@) =~= Seq::new((k + 1) as nat, |t: int| if t == 0 { seq![state@] } else { Seq::<TileStateView>::empty() }),
        decreases beam_depth - k,
    {
        let empty: Vec<TileState> = Vec::new();
        assert(views(empty@) =~= Seq::<TileStateView>::empty());
        let ghost prev = beam@;
        beam.push(empty);
        assert(views2(beam@) =~= views2(prev).push(Seq::<TileStateView>::empty()));
        k = k + 1;
    }
    let ghost start = chokudai_start(state@, d);
    proof {
        assert(views2(beam@) =~= start);
    }
    let mut rounds: usize = 0;
    let mut over = false;
    while !over && rounds < usize::MAX
        invariant
            beam@.len() == beam_depth + 1,
            w == beam_width as nat,
            d == beam_depth as nat,
            start == chokudai_start(state@, d),
            beams_wf(views2(beam@), input),
            forall|s: int, k: int| 1 <= s < beam@.len() && 0 <= k < views2(beam@)[s].len() ==> (#[trigger] views2(beam@)[s][k]).first_action < 4,
            views2(beam@) == chokudai_rounds(input, start, rounds as nat, d, w),
            over ==> rounds >= 1,
            timekeeper.threshold_ms() == time_threshold,
            time_threshold == 0 ==> (rounds == 0 && !over) || (rounds == 1 && over),
        decreases usize::MAX - rounds,
    {
        let ghost prev = views2(beam@);
        chokudai_sweep_exec(input, &mut beam, beam_width, beam_depth);
        proof {
            lemma_chokudai_rounds_step(input, start, rounds as nat, d, w);
        }
        rounds = rounds + 1;
        let time_over = timekeeper.is_time_over();
        proof {
            if time_threshold == 0 {
                let e = choose|e: u128| time_over == #[trigger] timekeeper.over_after(e);
                assert(time_over);
            }
        }
        if time_over {
            over = true;
        }
    }
    let r = match deepest_answer(&beam) {
        Some(a) => a,
        None => 6,
    };
    proof {
        assert(chokudai_rounds(input, start, rounds as nat, d, w) == views2(beam@));
    }
    r
}

/// One more round after `n` rounds is `n + 1` rounds.
proof fn lemma_chokudai_rounds_step(input: &Input, beams: Seq<Seq<TileStateView>>, n: nat, d: nat, w: nat)
    ensures
        chokudai_rounds(input, beams, n + 1, d, w) == chokudai_sweep(input, chokudai_rounds(input, beams, n, d, w), 0, d, w),
    decreases n,
{
    let s = chokudai_sweep(input, beams, 0, d, w);
    if n > 0 {
        lemma_chokudai_rounds_step(input, s, (n - 1) as nat, d, w);
        assert(chokudai_rounds(input, beams, n, d, w) == chokudai_rounds(input, s, (n - 1) as nat, d, w));
        assert(chokudai_rounds(input, beams, n + 1, d, w) == chokudai_rounds(input, s, n, d, w));
    } else {
        assert(chokudai_rounds(input, s, 0, d, w) == s);
        assert(chokudai_rounds(input, beams, 1, d, w) == chokudai_rounds(input, s, 0, d, w));
    }
}

} // verus!
