//! Properties of the library as a whole: what the walk built by the
//! solution's searches is worth to the scorer, and what every move keeps.

use crate::grid::{spec_dij, spec_dir, spec_step};
use crate::sample;
use crate::team2::{
    bfs_after, bfs_step, destroyed, dist_fits, dfs4sa_after, dfs4sa_step, dfs_after, dfs_step, manhattan, no_reversal, on_grid, path_score, reattached, turn_glyph, unscore, unsee,
    wrapped_distance, BfsSearch, DfsSearch, Input, TileStateView, USE_GAME_SCORE,
};
use vstd::prelude::*;

verus! {

/// The state that `TileState::new` makes at the input's start cell: it has
/// seen only the start cell's tile, holds the one-cell walk with no move written yet, and has
/// collected the start cell's points.
pub open spec fn is_start_state(input: &Input, v: TileStateView) -> bool {
    let s = input.s;
    &&& v.wf(input)
    &&& v.pos == s
    &&& v.steps == seq![s]
    &&& v.output == Seq::<char>::empty()
    &&& v.game_score == input.point(s.0 as int, s.1 as int)
    &&& forall|t: int| 0 <= t < v.seen.len() ==> #[trigger] v.seen[t] == (t == input.tile(s.0 as int, s.1 as int))
}

/// The two inputs describe the same problem.
pub open spec fn same_problem(a: &sample::Input, b: &Input) -> bool {
    &&& a.s == b.s
    &&& a.tiles@.len() == b.tiles@.len()
    &&& a.ps@.len() == b.points@.len()
    &&& forall|i: int| 0 <= i < a.tiles@.len() ==> #[trigger] a.tiles@[i]@ == b.tiles@[i]@
    &&& forall|i: int| 0 <= i < a.ps@.len() ==> #[trigger] a.ps@[i]@ == b.points@[i]@
}

/// The tiles seen are exactly the tiles of the cells of the walk.
pub open spec fn seen_matches_walk(input: &Input, v: TileStateView) -> bool {
    forall|t: int|
        0 <= t < v.seen.len() ==> (#[trigger] v.seen[t] <==> exists|k: int|
            0 <= k < v.steps.len() && input.tile(v.steps[k].0 as int, v.steps[k].1 as int) == t)
}

/// The cells of the walk lie on pairwise different tiles.
pub open spec fn tiles_distinct(input: &Input, v: TileStateView) -> bool {
    forall|x: int, y: int|
        #![trigger v.steps[x], v.steps[y]]
        0 <= x < y < v.steps.len() ==> input.tile(v.steps[x].0 as int, v.steps[x].1 as int) != input.tile(
            v.steps[y].0 as int,
            v.steps[y].1 as int,
        )
}

/// The scorer's count of each tile id agrees with the tiles that `v` has seen.
pub open spec fn used_matches_seen(used: Seq<usize>, v: TileStateView) -> bool {
    &&& used.len() == sample::N * sample::N
    &&& forall|t: int| 0 <= t < used.len() ==> #[trigger] used[t] == (if t < v.seen.len() && v.seen[t] { 1usize } else { 0usize })
}

/// The scorer reads the first `k` characters of two outputs alike when they
/// agree on those characters.
proof fn lemma_walk_prefix(a: &sample::Input, o1: Seq<char>, o2: Seq<char>, k: nat)
    requires
        k <= o1.len(),
        k <= o2.len(),
        o1.take(k as int) == o2.take(k as int),
    ensures
        sample::walk(a, o1, k) == sample::walk(a, o2, k),
    decreases k,
{
    if k > 0 {
        assert(o1.take(k - 1) =~= o1.take(k as int).take(k - 1));
        assert(o2.take(k - 1) =~= o2.take(k as int).take(k - 1));
        lemma_walk_prefix(a, o1, o2, (k - 1) as nat);
        assert(o1[k - 1] == o1.take(k as int)[k - 1]);
        assert(o2[k - 1] == o2.take(k as int)[k - 1]);
    }
}

/// Walks built from the start state by legal moves: what the scorer sees
/// after reading the moves' letters, and what the state records.
proof fn lemma_walk_run(a: &sample::Input, b: &Input, v0: TileStateView, acts: Seq<usize>)
    requires
        a.wf(),
        a.tiles_below((sample::N * sample::N) as int),
        same_problem(a, b),
        is_start_state(b, v0),
        v0.legal_run(b, acts),
    ensures
        ({
            let v = v0.run(b, acts);
            let w = sample::walk(a, v.output, acts.len());
            &&& v.wf(b)
            &&& v.output.len() == acts.len()
            &&& v.steps.len() == acts.len() + 1
            &&& v.seen.len() == v0.seen.len()
            &&& w.stop is Running
            &&& (w.i, w.j) == v.pos
            &&& w.score == v.game_score
            &&& w.steps == v.steps
            &&& !w.twice
            &&& used_matches_seen(w.used, v)
            &&& seen_matches_walk(b, v)
        }),
    decreases acts.len(),
{
    let s = b.s;
    let ts = b.tile(s.0 as int, s.1 as int);
    assert(a.tile(s.0 as int, s.1 as int) == ts);
    assert(a.point(s.0 as int, s.1 as int) == b.point(s.0 as int, s.1 as int));
    if acts.len() == 0 {
        let v = v0;
        let w = sample::walk(a, v.output, 0);
        assert(w == sample::walk_start(a));
        assert(ts < v0.seen.len());
        assert forall|t: int| 0 <= t < w.used.len() implies #[trigger] w.used[t] == (if t < v.seen.len() && v.seen[t] { 1usize } else { 0usize }) by {}
        assert forall|t: int| 0 <= t < v.seen.len() implies (#[trigger] v.seen[t] <==> exists|k: int|
            0 <= k < v.steps.len() && b.tile(v.steps[k].0 as int, v.steps[k].1 as int) == t) by {
            if v.seen[t] {
                assert(b.tile(v.steps[0].0 as int, v.steps[0].1 as int) == t);
            }
        }
    } else {
        let p = acts.drop_last();
        let act = acts.last();
        lemma_walk_run(a, b, v0, p);
        let u = v0.run(b, p);
        let v = v0.run(b, acts);
        assert(v == u.advanced(b, act));
        assert(u.is_legal(b, act));
        crate::team2::lemma_advanced_wf(u, b, act);
        let ou = u.output;
        let ov = v.output;
        assert(ov =~= ou.push(spec_dir(act)));
        assert(ov.take(p.len() as int) =~= ou.take(p.len() as int));
        assert(ou.take(p.len() as int) =~= ou);
        lemma_walk_prefix(a, ov, ou, p.len());
        let wu = sample::walk(a, ou, p.len());
        assert(sample::walk(a, ov, p.len()) == wu);
        assert(ov[p.len() as int] == spec_dir(act));
        let (ni, nj) = u.next_pos(act);
        assert(sample::char_delta(spec_dir(act)) == Some(spec_dij(act)));
        let t = b.tile(ni as int, nj as int);
        assert(a.tile(ni as int, nj as int) == t);
        assert(a.point(ni as int, nj as int) == b.point(ni as int, nj as int));
        assert(t < u.seen.len());
        assert(!u.seen[t as int]);
        assert(wu.used[t as int] == 0);
        let w = sample::walk(a, ov, acts.len());
        assert(w == sample::walk_step(a, wu, spec_dir(act)));
        assert forall|x: int| 0 <= x < w.used.len() implies #[trigger] w.used[x] == (if x < v.seen.len() && v.seen[x] { 1usize } else { 0usize }) by {
            if x != t {
                assert(w.used[x] == wu.used[x]);
            }
        }
        assert forall|x: int| 0 <= x < v.seen.len() implies (#[trigger] v.seen[x] <==> exists|k: int|
            0 <= k < v.steps.len() && b.tile(v.steps[k].0 as int, v.steps[k].1 as int) == x) by {
            if x == t {
                assert(b.tile(v.steps[v.steps.len() - 1].0 as int, v.steps[v.steps.len() - 1].1 as int) == x);
            } else {
                if u.seen[x] {
                    let k = choose|k: int| 0 <= k < u.steps.len() && b.tile(u.steps[k].0 as int, u.steps[k].1 as int) == x;
                    assert(v.steps[k] == u.steps[k]);
                }
                if exists|k: int| 0 <= k < v.steps.len() && b.tile(v.steps[k].0 as int, v.steps[k].1 as int) == x {
                    let k = choose|k: int| 0 <= k < v.steps.len() && b.tile(v.steps[k].0 as int, v.steps[k].1 as int) == x;
                    assert(k < u.steps.len());
                    assert(u.steps[k] == v.steps[k]);
                }
            }
        }
    }
}

/// A walk that the contest solution builds from the start cell by legal
/// moves is accepted by the contest's scorer: reading the walk's output,
/// the scorer neither stops nor finds
/// a tile stepped on twice, visits the same cells, and arrives at the game
/// score that the state has collected.
pub proof fn law_legal_walk_scores_its_game_score(a: &sample::Input, b: &Input, v0: TileStateView, acts: Seq<usize>)
    requires
        a.wf(),
        a.tiles_below((sample::N * sample::N) as int),
        same_problem(a, b),
        is_start_state(b, v0),
        v0.legal_run(b, acts),
    ensures
        ({
            let v = v0.run(b, acts);
            let w = sample::walk(a, v.output, v.output.len());
            &&& w.stop is Running
            &&& !w.twice
            &&& w.score == v.game_score
            &&& w.steps == v.steps
        }),
{
    lemma_walk_run(a, b, v0, acts);
}

/// Every legal move keeps the game score equal to the sum of the points of
/// the walk's cells (added with wrap-around), so recomputing it with
/// `updateGameScore` changes nothing.
pub proof fn law_run_keeps_score(b: &Input, v: TileStateView, acts: Seq<usize>)
    requires
        v.game_score == path_score(b, v.steps),
    ensures
        v.run(b, acts).game_score == path_score(b, v.run(b, acts).steps),
    decreases acts.len(),
{
    if acts.len() > 0 {
        law_run_keeps_score(b, v, acts.drop_last());
        let u = v.run(b, acts.drop_last());
        let w = v.run(b, acts);
        assert(w.steps.drop_last() =~= u.steps);
    }
}

/// A walk built from the start cell by legal moves steps on every tile at
/// most once, and so never turns straight back: the board picture can draw
/// every turn of it.
pub proof fn law_legal_walk_visits_each_tile_once(a: &sample::Input, b: &Input, v0: TileStateView, acts: Seq<usize>)
    requires
        a.wf(),
        a.tiles_below((sample::N * sample::N) as int),
        same_problem(a, b),
        is_start_state(b, v0),
        v0.legal_run(b, acts),
    ensures
        tiles_distinct(b, v0.run(b, acts)),
        no_reversal(v0.run(b, acts)),
    decreases acts.len(),
{
    lemma_walk_run(a, b, v0, acts);
    let v = v0.run(b, acts);
    if acts.len() > 0 {
        let p = acts.drop_last();
        let act = acts.last();
        law_legal_walk_visits_each_tile_once(a, b, v0, p);
        lemma_walk_run(a, b, v0, p);
        let u = v0.run(b, p);
        assert(v == u.advanced(b, act));
        let (ni, nj) = u.next_pos(act);
        let t = b.tile(ni as int, nj as int);
        assert(!u.seen[t as int]);
        assert forall|x: int, y: int|
            #![trigger v.steps[x], v.steps[y]]
            0 <= x < y < v.steps.len() implies b.tile(v.steps[x].0 as int, v.steps[x].1 as int) != b.tile(
            v.steps[y].0 as int,
            v.steps[y].1 as int,
        ) by {
            assert(v.steps[x] == u.steps[x]);
            if y < u.steps.len() {
                assert(v.steps[y] == u.steps[y]);
            } else {
                assert(u.seen[b.tile(u.steps[x].0 as int, u.steps[x].1 as int) as int]);
            }
        }
        assert forall|i: int| 1 <= i < v.output.len() implies #[trigger] turn_glyph(v.output[i - 1], v.output[i]) is Some by {
            if i < u.output.len() {
                assert(v.output[i - 1] == u.output[i - 1]);
                assert(v.output[i] == u.output[i]);
                assert(turn_glyph(u.output[i - 1], u.output[i]) is Some);
            } else {
                let q = p.drop_last();
                let prev = p.last();
                let u0 = v0.run(b, q);
                assert(u == u0.advanced(b, prev));
                assert(v.output[i - 1] == spec_dir(prev));
                assert(v.output[i] == spec_dir(act));
                // Turning straight back would step on the previous cell again.
                let back = (prev == 0 && act == 1) || (prev == 1 && act == 0) || (prev == 2 && act == 3) || (prev == 3 && act == 2);
                if back {
                    assert(p.len() >= 1);
                    assert(v0.legal_run(b, p));
                    assert(v0.legal_run(b, q));
                    lemma_walk_run(a, b, v0, q);
                    assert(u0.wf(b));
                    assert(v.steps[v.steps.len() - 1] == u.steps[u.steps.len() - 2]);
                    assert(u.seen[b.tile(u.steps[u.steps.len() - 2].0 as int, u.steps[u.steps.len() - 2].1 as int) as int]);
                }
            }
        }
    }
}

/// `x` and `y` are equal modulo 2^32.
#[verifier::opaque]
pub open spec fn cong32(x: int, y: int) -> bool {
    exists|k: int| x - y == #[trigger] (k * 4294967296)
}

proof fn lemma_cong32_intro(x: int, y: int, k: int)
    requires
        x - y == k * 4294967296,
    ensures
        cong32(x, y),
{
    reveal(cong32);
}

proof fn lemma_cong32_add(a: int, b: int, c: int, d: int)
    requires
        cong32(a, b),
        cong32(c, d),
    ensures
        cong32(a + c, b + d),
        cong32(a - c, b - d),
{
    reveal(cong32);
    let k1 = choose|k: int| a - b == #[trigger] (k * 4294967296);
    let k2 = choose|k: int| c - d == #[trigger] (k * 4294967296);
    assert((a + c) - (b + d) == (k1 + k2) * 4294967296) by (nonlinear_arith)
        requires
            a - b == k1 * 4294967296,
            c - d == k2 * 4294967296,
    ;
    assert((a - c) - (b - d) == (k1 - k2) * 4294967296) by (nonlinear_arith)
        requires
            a - b == k1 * 4294967296,
            c - d == k2 * 4294967296,
    ;
    lemma_cong32_intro(a + c, b + d, k1 + k2);
    lemma_cong32_intro(a - c, b - d, k1 - k2);
}

proof fn lemma_cong32_trans(a: int, b: int, c: int)
    requires
        cong32(a, b),
        cong32(b, c),
    ensures
        cong32(a, c),
        cong32(c, a),
{
    reveal(cong32);
    let k1 = choose|k: int| a - b == #[trigger] (k * 4294967296);
    let k2 = choose|k: int| b - c == #[trigger] (k * 4294967296);
    assert(a - c == (k1 + k2) * 4294967296) by (nonlinear_arith)
        requires
            a - b == k1 * 4294967296,
            b - c == k2 * 4294967296,
    ;
    assert(c - a == (-(k1 + k2)) * 4294967296) by (nonlinear_arith)
        requires
            a - c == (k1 + k2) * 4294967296,
    ;
    lemma_cong32_intro(a, c, k1 + k2);
    lemma_cong32_intro(c, a, -(k1 + k2));
}

proof fn lemma_cong32_refl(a: int)
    ensures
        cong32(a, a),
{
    lemma_cong32_intro(a, a, 0);
}

/// Two `i32` values that are equal modulo 2^32 are equal.
proof fn lemma_cong32_i32(x: i32, y: i32)
    requires
        cong32(x as int, y as int),
    ensures
        x == y,
{
    reveal(cong32);
    let k = choose|k: int| x - y == #[trigger] (k * 4294967296);
    if k > 0 {
        assert(k * 4294967296 >= 4294967296) by (nonlinear_arith)
            requires
                k > 0,
        ;
    } else if k < 0 {
        assert(k * 4294967296 <= -4294967296) by (nonlinear_arith)
            requires
                k < 0,
        ;
    }
}

proof fn lemma_wrapping_add_cong(x: i32, y: i32)
    ensures
        cong32(x.wrapping_add(y) as int, x + y),
{
    if x + y > i32::MAX {
        lemma_cong32_intro(x.wrapping_add(y) as int, x + y, -1);
    } else if x + y < i32::MIN {
        lemma_cong32_intro(x.wrapping_add(y) as int, x + y, 1);
    } else {
        lemma_cong32_refl(x + y);
    }
}

proof fn lemma_wrapping_sub_cong(x: i32, y: i32)
    ensures
        cong32(x.wrapping_sub(y) as int, x - y),
{
    if x - y > i32::MAX {
        lemma_cong32_intro(x.wrapping_sub(y) as int, x - y, -1);
    } else if x - y < i32::MIN {
        lemma_cong32_intro(x.wrapping_sub(y) as int, x - y, 1);
    } else {
        lemma_cong32_refl(x - y);
    }
}

/// The plain sum of the points of `cells`.
pub open spec fn int_score(b: &Input, cells: Seq<(usize, usize)>) -> int
    decreases cells.len(),
{
    if cells.len() == 0 {
        0
    } else {
        int_score(b, cells.drop_last()) + b.point(cells.last().0 as int, cells.last().1 as int)
    }
}

proof fn lemma_int_score_concat(b: &Input, x: Seq<(usize, usize)>, y: Seq<(usize, usize)>)
    ensures
        int_score(b, x + y) == int_score(b, x) + int_score(b, y),
    decreases y.len(),
{
    if y.len() == 0 {
        assert(x + y =~= x);
    } else {
        assert((x + y).drop_last() =~= x + y.drop_last());
        lemma_int_score_concat(b, x, y.drop_last());
    }
}

proof fn lemma_path_score_cong(b: &Input, cells: Seq<(usize, usize)>)
    ensures
        cong32(path_score(b, cells) as int, int_score(b, cells)),
    decreases cells.len(),
{
    if cells.len() == 0 {
        lemma_cong32_refl(0);
    } else {
        let p = cells.drop_last();
        let pt = b.point(cells.last().0 as int, cells.last().1 as int);
        lemma_path_score_cong(b, p);
        lemma_wrapping_add_cong(path_score(b, p), pt);
        lemma_cong32_refl(pt as int);
        lemma_cong32_add(path_score(b, p) as int, int_score(b, p), pt as int, pt as int);
        lemma_cong32_trans(path_score(b, cells) as int, path_score(b, p) + pt, int_score(b, cells));
    }
}

proof fn lemma_unscore_cong(b: &Input, score: i32, cells: Seq<(usize, usize)>)
    ensures
        cong32(unscore(b, score, cells) as int, score - int_score(b, cells)),
    decreases cells.len(),
{
    if cells.len() == 0 {
        lemma_cong32_refl(score as int);
    } else {
        let p = cells.drop_last();
        let pt = b.point(cells.last().0 as int, cells.last().1 as int);
        lemma_unscore_cong(b, score, p);
        lemma_wrapping_sub_cong(unscore(b, score, p), pt);
        lemma_cong32_refl(pt as int);
        lemma_cong32_add(unscore(b, score, p) as int, score - int_score(b, p), pt as int, pt as int);
        lemma_cong32_trans(unscore(b, score, cells) as int, unscore(b, score, p) - pt, score - int_score(b, cells));
    }
}

/// A run keeps the cells it starts from and adds the points of the cells it
/// visits (modulo 2^32).
proof fn lemma_run_cells(b: &Input, v: TileStateView, acts: Seq<usize>)
    ensures
        v.run(b, acts).steps.len() >= v.steps.len(),
        v.run(b, acts).steps.subrange(0, v.steps.len() as int) == v.steps,
        cong32(
            v.run(b, acts).game_score as int,
            v.game_score + int_score(b, v.run(b, acts).steps.skip(v.steps.len() as int)),
        ),
    decreases acts.len(),
{
    let w = v.run(b, acts);
    if acts.len() == 0 {
        assert(w.steps.subrange(0, v.steps.len() as int) =~= v.steps);
        assert(w.steps.skip(v.steps.len() as int) =~= Seq::<(usize, usize)>::empty());
        lemma_cong32_refl(v.game_score as int);
    } else {
        let u = v.run(b, acts.drop_last());
        lemma_run_cells(b, v, acts.drop_last());
        let (ni, nj) = u.next_pos(acts.last());
        let pt = b.point(ni as int, nj as int);
        assert(w.steps == u.steps.push((ni, nj)));
        assert(w.steps.subrange(0, v.steps.len() as int) =~= u.steps.subrange(0, v.steps.len() as int));
        let tu = u.steps.skip(v.steps.len() as int);
        let tw = w.steps.skip(v.steps.len() as int);
        assert(tw =~= tu.push((ni, nj)));
        assert(tw.drop_last() =~= tu);
        lemma_wrapping_add_cong(u.game_score, pt);
        lemma_cong32_refl(pt as int);
        lemma_cong32_add(u.game_score as int, v.game_score + int_score(b, tu), pt as int, pt as int);
        lemma_cong32_trans(w.game_score as int, u.game_score + pt, v.game_score + int_score(b, tw));
    }
}

/// The destroyed state's score is the points of the cells it keeps, modulo 2^32.
proof fn lemma_destroyed_score(b: &Input, v: TileStateView, start: int, end: int)
    requires
        v.wf_path(b),
        1 <= start <= end <= v.steps.len(),
        v.game_score == path_score(b, v.steps),
    ensures
        cong32(
            crate::team2::destroyed(b, v, start, end).game_score as int,
            int_score(b, v.steps.take(start)) + int_score(b, v.steps.skip(end)),
        ),
{
    let dv = crate::team2::destroyed(b, v, start, end);
    let prefix = v.steps.take(start);
    let cut = v.steps.subrange(start, end);
    let suffix = v.steps.skip(end);
    assert(v.steps =~= prefix + cut + suffix);
    lemma_int_score_concat(b, prefix + cut, suffix);
    lemma_int_score_concat(b, prefix, cut);
    lemma_path_score_cong(b, v.steps);
    lemma_unscore_cong(b, v.game_score, cut);
    lemma_cong32_refl(int_score(b, cut));
    lemma_cong32_add(v.game_score as int, int_score(b, v.steps), int_score(b, cut), int_score(b, cut));
    lemma_cong32_trans(dv.game_score as int, v.game_score - int_score(b, cut), int_score(b, prefix) + int_score(b, suffix));
}

/// A state rebuilt from the destroyed one keeps its cells, adds some, and
/// adds their points, modulo 2^32.
proof fn lemma_rebuilt_score(b: &Input, dv: TileStateView, d: TileStateView, base: int)
    requires
        d == dv || dv.extends(b, d),
        cong32(dv.game_score as int, base),
    ensures
        d.steps.len() >= dv.steps.len(),
        d.steps == dv.steps + d.steps.skip(dv.steps.len() as int),
        cong32(d.game_score as int, base + int_score(b, d.steps.skip(dv.steps.len() as int))),
{
    let new_cells = d.steps.skip(dv.steps.len() as int);
    if d == dv {
        assert(new_cells =~= Seq::<(usize, usize)>::empty());
        assert(d.steps =~= dv.steps + new_cells);
        assert(base + int_score(b, new_cells) == base);
    } else {
        let acts = choose|acts: Seq<usize>| #[trigger] dv.legal_run(b, acts) && dv.run(b, acts).same_walk(d);
        lemma_run_cells(b, dv, acts);
        let w = dv.run(b, acts);
        assert(w.steps == d.steps);
        assert(w.game_score == d.game_score);
        assert(d.steps =~= dv.steps + new_cells);
        lemma_cong32_refl(int_score(b, new_cells));
        lemma_cong32_add(dv.game_score as int, base, int_score(b, new_cells), int_score(b, new_cells));
        lemma_cong32_trans(d.game_score as int, dv.game_score + int_score(b, new_cells), base + int_score(b, new_cells));
    }
}

/// Destroying a stretch of a walk whose game score is the sum of its points
/// and splicing in a walk rebuilt from the destroyed state by legal moves
/// (as `climb` and `anneal_candidate` do) gives a walk whose game score is
/// again the sum of its points.
pub proof fn law_splice_keeps_score(b: &Input, v: TileStateView, start: int, end: int, d: TileStateView)
    requires
        v.wf_path(b),
        1 <= start <= end <= v.steps.len(),
        v.game_score == path_score(b, v.steps),
        d == crate::team2::destroyed(b, v, start, end) || crate::team2::destroyed(b, v, start, end).extends(b, d),
    ensures
        crate::team2::reattached(d, v, end).game_score == path_score(b, crate::team2::reattached(d, v, end).steps),
{
    let dv = crate::team2::destroyed(b, v, start, end);
    let prefix = v.steps.take(start);
    let suffix = v.steps.skip(end);
    let base = int_score(b, prefix) + int_score(b, suffix);
    lemma_destroyed_score(b, v, start, end);
    lemma_rebuilt_score(b, dv, d, base);
    let new_cells = d.steps.skip(start);
    assert(dv.steps == prefix);
    let r = crate::team2::reattached(d, v, end);
    assert(r.steps =~= prefix + new_cells + suffix);
    lemma_int_score_concat(b, prefix + new_cells, suffix);
    lemma_int_score_concat(b, prefix, new_cells);
    lemma_path_score_cong(b, r.steps);
    assert(base + int_score(b, new_cells) == int_score(b, r.steps));
    assert(r.game_score == d.game_score);
    lemma_cong32_refl(int_score(b, r.steps));
    lemma_cong32_trans(r.game_score as int, int_score(b, r.steps), int_score(b, r.steps));
    lemma_cong32_trans(path_score(b, r.steps) as int, int_score(b, r.steps), r.game_score as int);
    lemma_cong32_i32(r.game_score, path_score(b, r.steps));
}


/// No state of beam `t` of beam search from `root` is final.
pub open spec fn beam_layer_live(input: &sample::Input, root: sample::TileStateView, w: nat, t: nat) -> bool {
    match sample::beam_iter(input, root, w, t) {
        Some((now, _)) => forall|k: int| 0 <= k < now.len() ==> !(#[trigger] now[k]).is_done(),
        None => true,
    }
}

/// Chokudai search's work on a beam none of whose states is final is beam
/// search's step on it: the next beam gets the children of the same states,
/// taken in the same order.
proof fn lemma_step_is_select_expand(
    input: &sample::Input,
    beams: Seq<Seq<sample::TileStateView>>,
    t: nat,
    w: nat,
)
    requires
        t + 1 < beams.len(),
        forall|k: int| 0 <= k < beams[t as int].len() ==> !(#[trigger] beams[t as int][k]).is_done(),
    ensures
        sample::chokudai_step(input, beams, t, w).len() == beams.len(),
        sample::chokudai_step(input, beams, t, w)[t + 1int]
            == sample::select_expand(input, beams[t as int], beams[t + 1int], w, t),
        forall|x: int| 0 <= x < beams.len() && x != t && x != t + 1 ==> #[trigger] sample::chokudai_step(input, beams, t, w)[x] == beams[x],
    decreases w,
{
    let layer = beams[t as int];
    if w > 0 && layer.len() > 0 {
        sample::lemma_best_index(layer);
        let b = sample::best_index(layer);
        let nb = beams.update(t as int, layer.remove(b)).update(t as int + 1, beams[t as int + 1] + sample::children(layer[b], input, t));
        assert(nb[t as int] == layer.remove(b));
        assert forall|k: int| 0 <= k < nb[t as int].len() implies !(#[trigger] nb[t as int][k]).is_done() by {
            if k < b {
                assert(nb[t as int][k] == layer[k]);
            } else {
                assert(nb[t as int][k] == layer[k + 1]);
            }
        }
        lemma_step_is_select_expand(input, nb, t, (w - 1) as nat);
    }
}

/// Beam search after step `t` (for `t <= d`), when it ends with a state at
/// step `d` and no beam before that holds a final state.
proof fn lemma_beam_reaches(input: &sample::Input, root: sample::TileStateView, w: nat, d: nat, t: nat)
    requires
        root.wf(input),
        t <= d,
        sample::beam_outcome(input, root, w, d, t) is Some,
        forall|s: nat| s < d ==> #[trigger] beam_layer_live(input, root, w, s),
    ensures
        sample::beam_iter(input, root, w, d) is Some,
        sample::beam_outcome(input, root, w, d, t) == Some((sample::beam_iter(input, root, w, d)->0).1),
    decreases d - t,
{
    sample::lemma_beam_iter(input, root, w, t);
    if t < d {
        assert(beam_layer_live(input, root, w, t));
        let (now, b) = sample::beam_iter(input, root, w, t)->0;
        if t >= 1 {
            sample::lemma_best_index(now);
            assert(!now[sample::best_index(now)].is_done());
        }
        lemma_beam_reaches(input, root, w, d, t + 1);
    }
}

/// Beam search's beams `0..=d` exist when its step `d` does.
proof fn lemma_beam_iter_earlier(input: &sample::Input, root: sample::TileStateView, w: nat, t: nat, d: nat)
    requires
        t <= d,
        sample::beam_iter(input, root, w, d) is Some,
    ensures
        sample::beam_iter(input, root, w, t) is Some,
    decreases d - t,
{
    if t < d {
        lemma_beam_iter_earlier(input, root, w, t + 1, d);
    }
}

/// One round of chokudai search from beam `t` on, while beam `t` holds
/// beam search's beam `t` and the deeper beams are empty.
proof fn lemma_sweep_is_beam(
    input: &sample::Input,
    root: sample::TileStateView,
    beams: Seq<Seq<sample::TileStateView>>,
    w: nat,
    d: nat,
    t: nat,
)
    requires
        root.wf(input),
        t <= d,
        beams.len() == d + 1,
        sample::beam_iter(input, root, w, d) is Some,
        forall|s: nat| s < d ==> #[trigger] beam_layer_live(input, root, w, s),
        sample::beam_iter(input, root, w, t) is Some,
        beams[t as int] == (sample::beam_iter(input, root, w, t)->0).0,
        forall|x: int| t < x <= d ==> (#[trigger] beams[x]).len() == 0,
    ensures
        sample::deepest_best_action(sample::chokudai_sweep(input, beams, t, d, w), d as int)
            == Some((sample::beam_iter(input, root, w, d)->0).1.first_action),
    decreases d - t,
{
    if t >= d {
        sample::lemma_beam_iter(input, root, w, d);
    } else {
        lemma_beam_iter_earlier(input, root, w, t + 1, d);
        assert(beam_layer_live(input, root, w, t));
        let nb = sample::chokudai_step(input, beams, t, w);
        lemma_step_is_select_expand(input, beams, t, w);
        assert(beams[t + 1int] =~= Seq::<sample::TileStateView>::empty());
        assert(nb[t + 1int] == (sample::beam_iter(input, root, w, t + 1)->0).0);
        assert forall|x: int| t + 1 < x <= d implies (#[trigger] nb[x]).len() == 0 by {
            assert(nb[x] == beams[x]);
        }
        lemma_sweep_is_beam(input, root, nb, w, d, t + 1);
    }
}

/// One round of chokudai search is beam search: when beam search of width
/// `w` and depth `d` from `root` ends with a state (it does not panic) and
/// no state in its beams before depth `d` is final, chokudai search with
/// one round answers the same first move.
pub proof fn law_one_chokudai_round_is_beam_search(input: &sample::Input, root: sample::TileStateView, w: nat, d: nat)
    requires
        root.wf(input),
        sample::beam_outcome(input, root, w, d, 0) is Some,
        forall|t: nat| t < d ==> #[trigger] beam_layer_live(input, root, w, t),
    ensures
        sample::deepest_best_action(
            sample::chokudai_rounds(input, sample::chokudai_start(root, d), 1, d, w),
            d as int,
        ) == Some(sample::beam_outcome(input, root, w, d, 0)->0.first_action),
{
    lemma_beam_reaches(input, root, w, d, 0);
    let start = sample::chokudai_start(root, d);
    let swept = sample::chokudai_sweep(input, start, 0, d, w);
    assert(sample::chokudai_rounds(input, swept, 0, d, w) == swept);
    assert(sample::chokudai_rounds(input, start, 1, d, w) == swept);
    assert(start[0] == (sample::beam_iter(input, root, w, 0)->0).0);
    lemma_sweep_is_beam(input, root, start, w, d, 0);
}


/// The move that a letter of an output writes.
pub open spec fn letter_action(c: char) -> usize {
    if c == 'L' {
        0
    } else if c == 'R' {
        1
    } else if c == 'U' {
        2
    } else {
        3
    }
}

/// Each cell of `steps` after the first is the cell that the letter before
/// it in `output` leads to from the cell before it.
pub open spec fn connected(steps: Seq<(usize, usize)>, output: Seq<char>) -> bool {
    forall|k: int|
        1 <= k < steps.len() ==> #[trigger] steps[k] == spec_step(steps[k - 1].0, steps[k - 1].1, letter_action(output[k - 1]))
}

/// The tile of cell `p`.
pub open spec fn tile_at(b: &Input, p: (usize, usize)) -> int {
    b.tile(p.0 as int, p.1 as int) as int
}

/// Some cell of `cells` lies on tile `t`.
pub open spec fn on_cells(b: &Input, cells: Seq<(usize, usize)>, t: int) -> bool {
    exists|k: int| 0 <= k < cells.len() && #[trigger] tile_at(b, cells[k]) == t
}

/// A valid walk: recorded consistently, each cell reached from the one
/// before by the letter written for it, every tile stepped on at most once,
/// the tiles seen exactly the tiles of the walk, and the game score the sum
/// of the walk's points (with wrap-around).
pub open spec fn valid_walk(b: &Input, v: TileStateView) -> bool {
    &&& v.wf_path(b)
    &&& connected(v.steps, v.output)
    &&& tiles_distinct(b, v)
    &&& seen_matches_walk(b, v)
    &&& v.game_score == path_score(b, v.steps)
}

/// A walk being rebuilt: well formed and valid, except that `seen` also
/// holds the tiles of the cells `rest` that will follow it, none of which
/// lies on a tile of the walk.
pub open spec fn grows_validly(b: &Input, u: TileStateView, rest: Seq<(usize, usize)>) -> bool {
    &&& u.wf(b)
    &&& connected(u.steps, u.output)
    &&& tiles_distinct(b, u)
    &&& forall|t: int| 0 <= t < u.seen.len() ==> (#[trigger] u.seen[t] <==> (on_cells(b, u.steps, t) || on_cells(b, rest, t)))
    &&& forall|x: int, y: int|
        #![trigger u.steps[x], rest[y]]
        0 <= x < u.steps.len() && 0 <= y < rest.len() ==> tile_at(b, u.steps[x]) != tile_at(b, rest[y])
}

/// A legal move keeps a walk being rebuilt valid.
proof fn lemma_grows_advanced(b: &Input, u: TileStateView, rest: Seq<(usize, usize)>, a: usize)
    requires
        grows_validly(b, u, rest),
        u.is_legal(b, a),
    ensures
        grows_validly(b, u.advanced(b, a), rest),
{
    let w = u.advanced(b, a);
    crate::team2::lemma_advanced_wf(u, b, a);
    let p = u.next_pos(a);
    let t = tile_at(b, p);
    let n = u.steps.len() as int;
    assert(!u.seen[t]);
    assert(!on_cells(b, u.steps, t));
    assert(!on_cells(b, rest, t));
    assert(w.steps[n] == p);
    assert(letter_action(spec_dir(a)) == a);
    assert forall|k: int| 1 <= k < w.steps.len() implies #[trigger] w.steps[k] == spec_step(w.steps[k - 1].0, w.steps[k - 1].1, letter_action(w.output[k - 1])) by {
        if k < n {
            assert(w.steps[k] == u.steps[k]);
            assert(w.steps[k - 1] == u.steps[k - 1]);
            assert(w.output[k - 1] == u.output[k - 1]);
        } else {
            assert(w.steps[k - 1] == u.steps[n - 1]);
            assert(w.output[k - 1] == spec_dir(a));
        }
    }
    assert forall|x: int, y: int|
        #![trigger w.steps[x], w.steps[y]]
        0 <= x < y < w.steps.len() implies b.tile(w.steps[x].0 as int, w.steps[x].1 as int) != b.tile(w.steps[y].0 as int, w.steps[y].1 as int) by {
        assert(w.steps[x] == u.steps[x]);
        if y < n {
            assert(w.steps[y] == u.steps[y]);
        } else {
            assert(tile_at(b, u.steps[x]) != t);
        }
    }
    assert forall|t2: int| 0 <= t2 < w.seen.len() implies (#[trigger] w.seen[t2] <==> (on_cells(b, w.steps, t2) || on_cells(b, rest, t2))) by {
        if t2 == t {
            assert(tile_at(b, w.steps[n]) == t2);
        } else {
            assert(w.seen[t2] == u.seen[t2]);
            if on_cells(b, u.steps, t2) {
                let k = choose|k: int| 0 <= k < u.steps.len() && #[trigger] tile_at(b, u.steps[k]) == t2;
                assert(w.steps[k] == u.steps[k]);
            }
            if on_cells(b, w.steps, t2) {
                let k = choose|k: int| 0 <= k < w.steps.len() && #[trigger] tile_at(b, w.steps[k]) == t2;
                assert(k < n);
                assert(w.steps[k] == u.steps[k]);
            }
        }
    }
    assert forall|x: int, y: int|
        #![trigger w.steps[x], rest[y]]
        0 <= x < w.steps.len() && 0 <= y < rest.len() implies tile_at(b, w.steps[x]) != tile_at(b, rest[y]) by {
        if x < n {
            assert(w.steps[x] == u.steps[x]);
        } else {
            assert(tile_at(b, rest[y]) != t);
        }
    }
}

/// Legal moves keep a walk being rebuilt valid, and keep its cells.
proof fn lemma_grows_run(b: &Input, u: TileStateView, rest: Seq<(usize, usize)>, acts: Seq<usize>)
    requires
        grows_validly(b, u, rest),
        u.legal_run(b, acts),
    ensures
        grows_validly(b, u.run(b, acts), rest),
    decreases acts.len(),
{
    if acts.len() > 0 {
        lemma_grows_run(b, u, rest, acts.drop_last());
        lemma_grows_advanced(b, u.run(b, acts.drop_last()), rest, acts.last());
    }
}

/// Marking the tiles of `cells` unseen keeps the length and unmarks exactly
/// those tiles.
proof fn lemma_unsee(b: &Input, seen: Seq<bool>, cells: Seq<(usize, usize)>)
    requires
        forall|k: int| 0 <= k < cells.len() ==> 0 <= #[trigger] tile_at(b, cells[k]) < seen.len(),
    ensures
        unsee(b, seen, cells).len() == seen.len(),
        forall|t: int| 0 <= t < seen.len() ==> #[trigger] unsee(b, seen, cells)[t] == (seen[t] && !on_cells(b, cells, t)),
    decreases cells.len(),
{
    if cells.len() > 0 {
        let p = cells.drop_last();
        assert forall|k: int| 0 <= k < p.len() implies 0 <= #[trigger] tile_at(b, p[k]) < seen.len() by {
            assert(p[k] == cells[k]);
        }
        lemma_unsee(b, seen, p);
        let last = tile_at(b, cells[cells.len() - 1]);
        assert forall|t: int| 0 <= t < seen.len() implies #[trigger] unsee(b, seen, cells)[t] == (seen[t] && !on_cells(b, cells, t)) by {
            if t != last {
                if on_cells(b, cells, t) {
                    let k = choose|k: int| 0 <= k < cells.len() && #[trigger] tile_at(b, cells[k]) == t;
                    assert(p[k] == cells[k]);
                }
                if on_cells(b, p, t) {
                    let k = choose|k: int| 0 <= k < p.len() && #[trigger] tile_at(b, p[k]) == t;
                    assert(p[k] == cells[k]);
                }
            } else {
                assert(tile_at(b, cells[cells.len() - 1]) == t);
            }
        }
    }
}

/// The state left by destroying the stretch `[start, end)` of a valid walk
/// is a walk being rebuilt, to be followed by the cells from `end` on.
proof fn lemma_destroyed_grows(b: &Input, v: TileStateView, start: int, end: int)
    requires
        valid_walk(b, v),
        1 <= start <= end < v.steps.len(),
    ensures
        grows_validly(b, destroyed(b, v, start, end), v.steps.skip(end)),
{
    let dv = destroyed(b, v, start, end);
    let cut = v.steps.subrange(start, end);
    let suffix = v.steps.skip(end);
    assert forall|k: int| 0 <= k < cut.len() implies 0 <= #[trigger] tile_at(b, cut[k]) < v.seen.len() by {
        assert(cut[k] == v.steps[start + k]);
        assert(crate::team2::on_grid(v.steps[start + k]));
    }
    lemma_unsee(b, v.seen, cut);
    assert(dv.steps.len() == start);
    assert(dv.steps.last() == dv.pos);
    assert forall|k: int| 0 <= k < dv.steps.len() implies crate::team2::on_grid(#[trigger] dv.steps[k]) by {
        assert(dv.steps[k] == v.steps[k]);
    }
    assert forall|k: int| 0 <= k < dv.output.len() implies crate::team2::is_move_letter(#[trigger] dv.output[k]) by {
        assert(dv.output[k] == v.output[k]);
    }
    assert(dv.wf(b));
    assert forall|k: int| 1 <= k < dv.steps.len() implies #[trigger] dv.steps[k] == spec_step(dv.steps[k - 1].0, dv.steps[k - 1].1, letter_action(dv.output[k - 1])) by {
        assert(dv.steps[k] == v.steps[k]);
        assert(dv.steps[k - 1] == v.steps[k - 1]);
        assert(dv.output[k - 1] == v.output[k - 1]);
    }
    assert forall|x: int, y: int|
        #![trigger dv.steps[x], dv.steps[y]]
        0 <= x < y < dv.steps.len() implies b.tile(dv.steps[x].0 as int, dv.steps[x].1 as int) != b.tile(dv.steps[y].0 as int, dv.steps[y].1 as int) by {
        assert(dv.steps[x] == v.steps[x]);
        assert(dv.steps[y] == v.steps[y]);
    }
    assert forall|t: int| 0 <= t < dv.seen.len() implies (#[trigger] dv.seen[t] <==> (on_cells(b, dv.steps, t) || on_cells(b, suffix, t))) by {
        assert(dv.seen[t] == (v.seen[t] && !on_cells(b, cut, t)));
        if on_cells(b, dv.steps, t) {
            let k = choose|k: int| 0 <= k < dv.steps.len() && #[trigger] tile_at(b, dv.steps[k]) == t;
            assert(dv.steps[k] == v.steps[k]);
            assert(b.tile(v.steps[k].0 as int, v.steps[k].1 as int) == t);
            if on_cells(b, cut, t) {
                let j = choose|j: int| 0 <= j < cut.len() && #[trigger] tile_at(b, cut[j]) == t;
                assert(cut[j] == v.steps[start + j]);
                assert(b.tile(v.steps[start + j].0 as int, v.steps[start + j].1 as int) != b.tile(v.steps[k].0 as int, v.steps[k].1 as int));
            }
        }
        if on_cells(b, suffix, t) {
            let k = choose|k: int| 0 <= k < suffix.len() && #[trigger] tile_at(b, suffix[k]) == t;
            assert(suffix[k] == v.steps[end + k]);
            assert(b.tile(v.steps[end + k].0 as int, v.steps[end + k].1 as int) == t);
            if on_cells(b, cut, t) {
                let j = choose|j: int| 0 <= j < cut.len() && #[trigger] tile_at(b, cut[j]) == t;
                assert(cut[j] == v.steps[start + j]);
                assert(b.tile(v.steps[start + j].0 as int, v.steps[start + j].1 as int) != b.tile(v.steps[end + k].0 as int, v.steps[end + k].1 as int));
            }
        }
        if v.seen[t] && !on_cells(b, cut, t) {
            let k = choose|k: int| 0 <= k < v.steps.len() && b.tile(v.steps[k].0 as int, v.steps[k].1 as int) == t;
            if k < start {
                assert(dv.steps[k] == v.steps[k]);
                assert(tile_at(b, dv.steps[k]) == t);
            } else if k < end {
                assert(cut[k - start] == v.steps[k]);
                assert(tile_at(b, cut[k - start]) == t);
            } else {
                assert(suffix[k - end] == v.steps[k]);
                assert(tile_at(b, suffix[k - end]) == t);
            }
        }
    }
    assert forall|x: int, y: int|
        #![trigger dv.steps[x], suffix[y]]
        0 <= x < dv.steps.len() && 0 <= y < suffix.len() implies tile_at(b, dv.steps[x]) != tile_at(b, suffix[y]) by {
        assert(dv.steps[x] == v.steps[x]);
        assert(suffix[y] == v.steps[end + y]);
        assert(b.tile(v.steps[x].0 as int, v.steps[x].1 as int) != b.tile(v.steps[end + y].0 as int, v.steps[end + y].1 as int));
    }
}

/// Splicing a rebuilt walk that reconnects to cell `end - 1` in front of
/// the cells of `v` from `end` on: the cells stay on the grid, the letters
/// are moves, and each cell is reached by its letter.
#[verifier::rlimit(30)]
proof fn lemma_reattached_connected(b: &Input, v: TileStateView, end: int, d: TileStateView)
    requires
        v.wf_path(b),
        connected(v.steps, v.output),
        1 <= end < v.steps.len(),
        d.wf(b),
        connected(d.steps, d.output),
        d.pos == v.steps[end - 1],
    ensures
        reattached(d, v, end).wf_path(b),
        connected(reattached(d, v, end).steps, reattached(d, v, end).output),
{
    let suffix = v.steps.skip(end);
    let r = reattached(d, v, end);
    let n = d.steps.len() as int;
    let o = d.output.len() as int;
    assert(r.steps =~= d.steps + suffix);
    assert(r.output =~= d.output + v.output.skip(end - 1));
    assert forall|k: int| 0 <= k < r.steps.len() implies crate::team2::on_grid(#[trigger] r.steps[k]) by {
        if k >= n {
            assert(r.steps[k] == v.steps[end + k - n]);
        } else {
            assert(r.steps[k] == d.steps[k]);
        }
    }
    assert forall|k: int| 0 <= k < r.output.len() implies crate::team2::is_move_letter(#[trigger] r.output[k]) by {
        if k >= o {
            assert(r.output[k] == v.output[end - 1 + k - o]);
        } else {
            assert(r.output[k] == d.output[k]);
        }
    }
    assert forall|k: int| 1 <= k < r.steps.len() implies #[trigger] r.steps[k] == spec_step(r.steps[k - 1].0, r.steps[k - 1].1, letter_action(r.output[k - 1])) by {
        if k < n {
            assert(r.steps[k] == d.steps[k]);
            assert(r.steps[k - 1] == d.steps[k - 1]);
            assert(r.output[k - 1] == d.output[k - 1]);
        } else if k == n {
            assert(r.steps[k] == v.steps[end]);
            assert(r.steps[k - 1] == d.steps[n - 1]);
            assert(r.output[k - 1] == v.output[end - 1]);
            assert(v.steps[end] == spec_step(v.steps[end - 1].0, v.steps[end - 1].1, letter_action(v.output[end - 1])));
        } else {
            let m = end + k - n;
            assert(r.steps[k] == v.steps[m]);
            assert(r.steps[k - 1] == v.steps[m - 1]);
            assert(r.output[k - 1] == v.output[m - 1]);
            assert(v.steps[m] == spec_step(v.steps[m - 1].0, v.steps[m - 1].1, letter_action(v.output[m - 1])));
        }
    }
}

/// Splicing a rebuilt walk in front of the cells of `v` from `end` on: the
/// tiles stay distinct and `seen` holds exactly the tiles of the walk.
proof fn lemma_reattached_tiles(b: &Input, v: TileStateView, end: int, d: TileStateView)
    requires
        valid_walk(b, v),
        1 <= end < v.steps.len(),
        grows_validly(b, d, v.steps.skip(end)),
    ensures
        tiles_distinct(b, reattached(d, v, end)),
        seen_matches_walk(b, reattached(d, v, end)),
{
    let suffix = v.steps.skip(end);
    let r = reattached(d, v, end);
    let n = d.steps.len() as int;
    assert(r.steps =~= d.steps + suffix);
    assert forall|x: int, y: int|
        #![trigger r.steps[x], r.steps[y]]
        0 <= x < y < r.steps.len() implies b.tile(r.steps[x].0 as int, r.steps[x].1 as int) != b.tile(r.steps[y].0 as int, r.steps[y].1 as int) by {
        if y < n {
            assert(r.steps[x] == d.steps[x]);
            assert(r.steps[y] == d.steps[y]);
        } else if x < n {
            assert(r.steps[x] == d.steps[x]);
            assert(r.steps[y] == suffix[y - n]);
            assert(tile_at(b, d.steps[x]) != tile_at(b, suffix[y - n]));
        } else {
            assert(r.steps[x] == v.steps[end + x - n]);
            assert(r.steps[y] == v.steps[end + y - n]);
        }
    }
    assert forall|t: int| 0 <= t < r.seen.len() implies (#[trigger] r.seen[t] <==> exists|k: int|
        0 <= k < r.steps.len() && b.tile(r.steps[k].0 as int, r.steps[k].1 as int) == t) by {
        if on_cells(b, d.steps, t) {
            let k = choose|k: int| 0 <= k < d.steps.len() && #[trigger] tile_at(b, d.steps[k]) == t;
            assert(r.steps[k] == d.steps[k]);
        }
        if on_cells(b, suffix, t) {
            let k = choose|k: int| 0 <= k < suffix.len() && #[trigger] tile_at(b, suffix[k]) == t;
            assert(r.steps[n + k] == suffix[k]);
        }
        if exists|k: int| 0 <= k < r.steps.len() && b.tile(r.steps[k].0 as int, r.steps[k].1 as int) == t {
            let k = choose|k: int| 0 <= k < r.steps.len() && b.tile(r.steps[k].0 as int, r.steps[k].1 as int) == t;
            if k < n {
                assert(r.steps[k] == d.steps[k]);
                assert(tile_at(b, d.steps[k]) == t);
            } else {
                assert(r.steps[k] == suffix[k - n]);
                assert(tile_at(b, suffix[k - n]) == t);
            }
        }
    }
}

/// A valid walk whose stretch `[start, end)` is destroyed and rebuilt by
/// legal moves that reconnect to cell `end - 1` is again a valid walk, with
/// the same first and last cells.
pub proof fn law_splice_is_valid_walk(b: &Input, v: TileStateView, start: int, end: int, d: TileStateView)
    requires
        valid_walk(b, v),
        1 <= start <= end < v.steps.len(),
        destroyed(b, v, start, end).extends(b, d),
        d.pos == v.steps[end - 1],
    ensures
        valid_walk(b, reattached(d, v, end)),
        reattached(d, v, end).steps[0] == v.steps[0],
        reattached(d, v, end).steps.last() == v.steps.last(),
{
    let dv = destroyed(b, v, start, end);
    let suffix = v.steps.skip(end);
    lemma_destroyed_grows(b, v, start, end);
    let acts = choose|acts: Seq<usize>| #[trigger] dv.legal_run(b, acts) && dv.run(b, acts).same_walk(d);
    lemma_grows_run(b, dv, suffix, acts);
    lemma_run_cells(b, dv, acts);
    let w = dv.run(b, acts);
    assert(w.steps == d.steps && w.output == d.output && w.seen == d.seen && w.pos == d.pos);
    assert(grows_validly(b, d, suffix));
    law_splice_keeps_score(b, v, start, end, d);
    lemma_reattached_connected(b, v, end, d);
    lemma_reattached_tiles(b, v, end, d);
    let r = reattached(d, v, end);
    assert(r.steps =~= d.steps + suffix);
    assert(d.steps[0] == dv.steps[0]);
    assert(r.steps.last() == suffix.last());
}

/// Every cell of the grid has a nonnegative number of points.
pub open spec fn points_nonneg(b: &Input) -> bool {
    forall|i: int, j: int| 0 <= i < crate::team2::TILE_SIZE && 0 <= j < crate::team2::TILE_SIZE ==> 0 <= #[trigger] b.point(i, j)
}

proof fn lemma_int_score_nonneg(b: &Input, cells: Seq<(usize, usize)>)
    requires
        points_nonneg(b),
        forall|k: int| 0 <= k < cells.len() ==> crate::team2::on_grid(#[trigger] cells[k]),
    ensures
        int_score(b, cells) >= 0,
    decreases cells.len(),
{
    if cells.len() > 0 {
        let p = cells.drop_last();
        assert forall|k: int| 0 <= k < p.len() implies crate::team2::on_grid(#[trigger] p[k]) by {
            assert(p[k] == cells[k]);
        }
        lemma_int_score_nonneg(b, p);
        assert(crate::team2::on_grid(cells[cells.len() - 1]));
    }
}

/// An `i32` equal modulo 2^32 to an integer in the range of `i32` is that
/// integer.
proof fn lemma_cong32_in_range(x: i32, y: int)
    requires
        cong32(x as int, y),
        i32::MIN <= y <= i32::MAX,
    ensures
        x == y,
{
    let yi = y as i32;
    assert(yi as int == y);
    lemma_cong32_i32(x, yi);
}

/// When the points are nonnegative and the walk's points add up within
/// `i32`, destroying a stretch of a valid walk and leaving it unrebuilt
/// (the search found nothing) never scores more than the walk.
pub proof fn law_unrebuilt_splice_scores_no_more(b: &Input, v: TileStateView, start: int, end: int)
    requires
        valid_walk(b, v),
        1 <= start <= end <= v.steps.len(),
        points_nonneg(b),
        int_score(b, v.steps) <= i32::MAX,
    ensures
        reattached(destroyed(b, v, start, end), v, end).game_score <= v.game_score,
{
    let prefix = v.steps.take(start);
    let cut = v.steps.subrange(start, end);
    let suffix = v.steps.skip(end);
    assert(v.steps =~= prefix + cut + suffix);
    lemma_int_score_concat(b, prefix + cut, suffix);
    lemma_int_score_concat(b, prefix, cut);
    assert forall|k: int| 0 <= k < prefix.len() implies crate::team2::on_grid(#[trigger] prefix[k]) by {
        assert(prefix[k] == v.steps[k]);
    }
    assert forall|k: int| 0 <= k < cut.len() implies crate::team2::on_grid(#[trigger] cut[k]) by {
        assert(cut[k] == v.steps[start + k]);
    }
    assert forall|k: int| 0 <= k < suffix.len() implies crate::team2::on_grid(#[trigger] suffix[k]) by {
        assert(suffix[k] == v.steps[end + k]);
    }
    lemma_int_score_nonneg(b, prefix);
    lemma_int_score_nonneg(b, cut);
    lemma_int_score_nonneg(b, suffix);
    lemma_destroyed_score(b, v, start, end);
    lemma_path_score_cong(b, v.steps);
    let dv = destroyed(b, v, start, end);
    lemma_cong32_in_range(dv.game_score, int_score(b, prefix) + int_score(b, suffix));
    lemma_cong32_in_range(v.game_score, int_score(b, v.steps));
}

/// The moves `acts` taken one by one: the state after the first `j + 1`
/// is the state after the first `j` advanced by move `j`, which was legal.
proof fn lemma_run_prefix(b: &Input, root: TileStateView, acts: Seq<usize>, j: int)
    requires
        root.legal_run(b, acts),
        0 <= j < acts.len(),
    ensures
        root.legal_run(b, acts.take(j + 1)),
        root.run(b, acts.take(j)).is_legal(b, acts[j]),
        root.run(b, acts.take(j + 1)) == root.run(b, acts.take(j)).advanced(b, acts[j]),
    decreases acts.len() - j,
{
    if j == acts.len() - 1 {
        assert(acts.take(j + 1) =~= acts);
        assert(acts.drop_last() =~= acts.take(j));
    } else {
        let p = acts.drop_last();
        lemma_run_prefix(b, root, p, j);
        assert(p.take(j + 1) =~= acts.take(j + 1));
        assert(p.take(j) =~= acts.take(j));
    }
}

/// On the grid, the distance computed in `i32` is the Manhattan distance.
proof fn lemma_wrapped_is_manhattan(p: (usize, usize), g: (usize, usize))
    requires
        on_grid(p),
        on_grid(g),
    ensures
        wrapped_distance(p, g) == manhattan(p, g),
{
    assert((p.0 as i32) as int == p.0 as int);
    assert((p.1 as i32) as int == p.1 as int);
    assert((g.0 as i32) as int == g.0 as int);
    assert((g.1 as i32) as int == g.1 as int);
}

/// Along legal moves every cell is on the grid, and the cell after the
/// first `j` moves is at most `acts.len() - j` moves (in Manhattan
/// distance) from the last cell.
#[verifier::spinoff_prover]
#[verifier::rlimit(40)]
proof fn lemma_run_distance(b: &Input, root: TileStateView, acts: Seq<usize>, j: int)
    requires
        root.wf(b),
        root.legal_run(b, acts),
        0 <= j <= acts.len(),
    ensures
        on_grid(root.run(b, acts.take(j)).pos),
        manhattan(root.run(b, acts.take(j)).pos, root.run(b, acts).pos) <= acts.len() - j,
    decreases acts.len() - j,
{
    if j == acts.len() {
        assert(acts.take(j) =~= acts);
        if j > 0 {
            lemma_run_prefix(b, root, acts, j - 1);
        } else {
            assert(acts.take(0) =~= Seq::<usize>::empty());
        }
    } else {
        lemma_run_distance(b, root, acts, j + 1);
        lemma_run_prefix(b, root, acts, j);
        if j == 0 {
            assert(acts.take(0) =~= Seq::<usize>::empty());
        } else {
            lemma_run_prefix(b, root, acts, j - 1);
        }
    }
}

/// The depth-first search from `root` still accounts for the walk `acts`:
/// its kept state ranks at least as high as the walk's score, or a stack
/// entry holds the walk after its first `c` moves (as the root, or ranked
/// by its game score).
pub open spec fn dfs_accounts_for(b: &Input, root: TileStateView, s: DfsSearch, acts: Seq<usize>) -> bool {
    ||| s.best.evaluated_score >= root.run(b, acts).game_score
    ||| exists|x: int| {
        &&& 0 <= x < s.stack.len()
        &&& 0 <= #[trigger] s.stack[x].1 <= acts.len()
        &&& s.stack[x].0.same_walk(root.run(b, acts.take(s.stack[x].1 as int)))
        &&& s.stack[x].0.goal == root.goal
        &&& (s.stack[x].1 == 0 ==> s.stack[x].0 == root)
        &&& (s.stack[x].1 >= 1 ==> s.stack[x].0.evaluated_score == s.stack[x].0.game_score)
    }
}

/// Every entry of the search's stack heads for `goal`.
pub open spec fn stack_heads_for(s: DfsSearch, goal: (usize, usize)) -> bool {
    forall|x: int| 0 <= x < s.stack.len() ==> (#[trigger] s.stack[x]).0.goal == goal
}

/// A walk that reaches the goal by at most `limit` legal moves, and not
/// before its last move, stays accounted for by every step of the search.
proof fn lemma_dfs_accounts(b: &Input, root: TileStateView, limit: i32, k: nat, acts: Seq<usize>)
    requires
        root.wf(b),
        on_grid(root.goal),
        root.pos != root.goal,
        root.legal_run(b, acts),
        acts.len() <= limit,
        root.run(b, acts).pos == root.goal,
        forall|j: int| 0 <= j < acts.len() ==> #[trigger] root.run(b, acts.take(j)).pos != root.goal,
    ensures
        dfs_accounts_for(b, root, dfs_after(b, root, limit, k), acts),
        dfs_after(b, root, limit, k).best.goal == root.goal,
        stack_heads_for(dfs_after(b, root, limit, k), root.goal),
    decreases k,
{
    if k == 0 {
        let s = dfs_after(b, root, limit, 0);
        assert(acts.take(0) =~= Seq::<usize>::empty());
        assert(s.stack[0].0.same_walk(root.run(b, acts.take(0))));
        assert(s.stack[0].1 == 0);
        assert(0 <= s.stack[0].1 <= acts.len());
    } else {
        lemma_dfs_accounts(b, root, limit, (k - 1) as nat, acts);
        let s = dfs_after(b, root, limit, (k - 1) as nat);
        let s2 = dfs_after(b, root, limit, k);
        assert(s2 == dfs_step(b, s, limit));
        lemma_dfs_step_accounts(b, root, limit, s, acts);
    }
}

/// One step of the search keeps the walk `acts` accounted for.
#[verifier::rlimit(40)]
proof fn lemma_dfs_step_accounts(b: &Input, root: TileStateView, limit: i32, s: DfsSearch, acts: Seq<usize>)
    requires
        root.wf(b),
        on_grid(root.goal),
        root.pos != root.goal,
        root.legal_run(b, acts),
        acts.len() <= limit,
        root.run(b, acts).pos == root.goal,
        forall|j: int| 0 <= j < acts.len() ==> #[trigger] root.run(b, acts.take(j)).pos != root.goal,
        s.best.goal == root.goal,
        stack_heads_for(s, root.goal),
        dfs_accounts_for(b, root, s, acts),
    ensures
        dfs_accounts_for(b, root, dfs_step(b, s, limit), acts),
        dfs_step(b, s, limit).best.goal == root.goal,
        stack_heads_for(dfs_step(b, s, limit), root.goal),
{
    let s2 = dfs_step(b, s, limit);
    let target = root.run(b, acts);
    if s.stack.len() > 0 {
        let (v, c) = s.stack.last();
        let rest = s.stack.drop_last();
        let n = rest.len() as int;
        assert(s.stack[n] == (v, c));
        assert(v.goal == root.goal);
        assert forall|x: int| 0 <= x < s2.stack.len() implies (#[trigger] s2.stack[x]).0.goal == root.goal by {
            if x < n {
                assert(s2.stack[x] == s.stack[x]);
            }
        }
        assert(s2.best.evaluated_score >= s.best.evaluated_score);
        if s.best.evaluated_score < target.game_score {
            let x = choose|x: int| {
                &&& 0 <= x < s.stack.len()
                &&& 0 <= #[trigger] s.stack[x].1 <= acts.len()
                &&& s.stack[x].0.same_walk(root.run(b, acts.take(s.stack[x].1 as int)))
                &&& s.stack[x].0.goal == root.goal
                &&& (s.stack[x].1 == 0 ==> s.stack[x].0 == root)
                &&& (s.stack[x].1 >= 1 ==> s.stack[x].0.evaluated_score == s.stack[x].0.game_score)
            };
            if x < n {
                assert(s2.stack[x] == s.stack[x]);
            } else {
                let u = root.run(b, acts.take(c as int));
                assert(v.same_walk(u));
                if v.pos == s.best.goal {
                    if (c as int) < acts.len() {
                        assert(u.pos != root.goal);
                    }
                    assert(c as int == acts.len());
                    assert(acts.take(c as int) =~= acts);
                    assert(c >= 1);
                } else {
                    assert((c as int) < acts.len()) by {
                        if c as int == acts.len() {
                            assert(acts.take(c as int) =~= acts);
                        }
                    }
                    lemma_run_distance(b, root, acts, c as int);
                    lemma_wrapped_is_manhattan(v.pos, v.goal);
                    assert(v.goal == root.goal);
                    assert(v.goal_distance() <= limit - c);
                    lemma_run_prefix(b, root, acts, c as int);
                    let a = acts[c as int];
                    crate::team2::lemma_same_walk_advanced(v, u, b, a);
                    crate::team2::lemma_legal_upto(v, b, 4);
                    assert(v.legal_actions(b).contains(a));
                    let i = choose|i: int| 0 <= i < v.legal_actions(b).len() && v.legal_actions(b)[i] == a;
                    let ch = crate::team2::dfs_children(b, v, c, v.legal_actions(b));
                    let child = v.advanced(b, a).evaluated(USE_GAME_SCORE);
                    assert(ch[i] == (child, (c + 1) as i32));
                    assert(s2.stack[n + i] == ch[i]);
                    assert(child.same_walk(root.run(b, acts.take(c + 1))));
                    assert(s2.stack[n + i].1 == c + 1);
                }
            }
        }
    }
}

/// When the depth-first search from `root` has emptied its stack, it has
/// kept a walk ranked at least as high as every walk that reaches the goal
/// by at most `limit` legal moves (and not before its last move).
pub proof fn law_dfs_exhausted_keeps_the_best(b: &Input, root: TileStateView, limit: i32, k: nat, acts: Seq<usize>)
    requires
        root.wf(b),
        on_grid(root.goal),
        root.pos != root.goal,
        dfs_after(b, root, limit, k).stack.len() == 0,
        root.legal_run(b, acts),
        acts.len() <= limit,
        root.run(b, acts).pos == root.goal,
        forall|j: int| 0 <= j < acts.len() ==> #[trigger] root.run(b, acts.take(j)).pos != root.goal,
    ensures
        dfs_after(b, root, limit, k).best.evaluated_score >= root.run(b, acts).game_score,
{
    lemma_dfs_accounts(b, root, limit, k, acts);
}

/// The randomized depth-first search from `root` has found a walk to the
/// goal, or a stack entry holds the walk `acts` after its first `c` moves.
pub open spec fn dfs4sa_accounts_for(b: &Input, root: TileStateView, s: DfsSearch, acts: Seq<usize>) -> bool {
    ||| s.best.pos == root.goal
    ||| exists|x: int| {
        &&& 0 <= x < s.stack.len()
        &&& 0 <= #[trigger] s.stack[x].1 <= acts.len()
        &&& s.stack[x].0.same_walk(root.run(b, acts.take(s.stack[x].1 as int)))
        &&& s.stack[x].0.goal == root.goal
    }
}

/// One step of the randomized search keeps the walk `acts` accounted for.
#[verifier::rlimit(40)]
proof fn lemma_dfs4sa_step_accounts(b: &Input, root: TileStateView, limit: i32, s: DfsSearch, acts: Seq<usize>, order: Seq<usize>)
    requires
        root.wf(b),
        on_grid(root.goal),
        root.legal_run(b, acts),
        acts.len() <= limit,
        root.run(b, acts).pos == root.goal,
        s.best.goal == root.goal,
        stack_heads_for(s, root.goal),
        dfs4sa_accounts_for(b, root, s, acts),
    ensures
        dfs4sa_accounts_for(b, root, dfs4sa_step(b, s, limit, order), acts),
        dfs4sa_step(b, s, limit, order).best.goal == root.goal,
        stack_heads_for(dfs4sa_step(b, s, limit, order), root.goal),
{
    let s2 = dfs4sa_step(b, s, limit, order);
    if s.stack.len() > 0 {
        let (v, c) = s.stack.last();
        let rest = s.stack.drop_last();
        let n = rest.len() as int;
        assert(s.stack[n] == (v, c));
        assert(v.goal == root.goal);
        assert forall|x: int| 0 <= x < s2.stack.len() implies (#[trigger] s2.stack[x]).0.goal == root.goal by {
            if x < n {
                assert(s2.stack[x] == s.stack[x]);
            }
        }
        if s.best.pos != root.goal && v.pos != root.goal {
            let x = choose|x: int| {
                &&& 0 <= x < s.stack.len()
                &&& 0 <= #[trigger] s.stack[x].1 <= acts.len()
                &&& s.stack[x].0.same_walk(root.run(b, acts.take(s.stack[x].1 as int)))
                &&& s.stack[x].0.goal == root.goal
            };
            if x < n {
                assert(s2.stack[x] == s.stack[x]);
            } else {
                let u = root.run(b, acts.take(c as int));
                assert(v.same_walk(u));
                assert((c as int) < acts.len()) by {
                    if c as int == acts.len() {
                        assert(acts.take(c as int) =~= acts);
                    }
                }
                lemma_run_distance(b, root, acts, c as int);
                lemma_wrapped_is_manhattan(v.pos, v.goal);
                assert(v.goal_distance() <= limit - c);
                lemma_run_prefix(b, root, acts, c as int);
                let a = acts[c as int];
                crate::team2::lemma_same_walk_advanced(v, u, b, a);
                crate::team2::lemma_legal_upto(v, b, 4);
                let legal = v.legal_actions(b);
                assert(legal.contains(a));
                let tried = if order.to_multiset() == legal.to_multiset() { order } else { legal };
                order.to_multiset_ensures();
                legal.to_multiset_ensures();
                assert(legal.to_multiset().count(a) > 0);
                if order.to_multiset() == legal.to_multiset() {
                    assert(order.to_multiset().count(a) > 0);
                    assert(order.contains(a));
                }
                assert(tried.contains(a));
                let i = choose|i: int| 0 <= i < tried.len() && tried[i] == a;
                let ch = crate::team2::dfs_children(b, v, c, tried);
                let child = v.advanced(b, a).evaluated(USE_GAME_SCORE);
                assert(ch[i] == (child, (c + 1) as i32));
                assert(s2.stack[n + i] == ch[i]);
                assert(child.same_walk(root.run(b, acts.take(c + 1))));
                assert(s2.stack[n + i].1 == c + 1);
            }
        }
    }
}

/// Every step of the randomized search keeps the walk `acts` accounted for.
proof fn lemma_dfs4sa_accounts(b: &Input, root: TileStateView, limit: i32, orders: Seq<Seq<usize>>, acts: Seq<usize>)
    requires
        root.wf(b),
        on_grid(root.goal),
        root.legal_run(b, acts),
        acts.len() <= limit,
        root.run(b, acts).pos == root.goal,
    ensures
        dfs4sa_accounts_for(b, root, dfs4sa_after(b, root, limit, orders), acts),
        dfs4sa_after(b, root, limit, orders).best.goal == root.goal,
        stack_heads_for(dfs4sa_after(b, root, limit, orders), root.goal),
    decreases orders.len(),
{
    if orders.len() == 0 {
        let s = dfs4sa_after(b, root, limit, orders);
        assert(acts.take(0) =~= Seq::<usize>::empty());
        assert(s.stack[0].0.same_walk(root.run(b, acts.take(0))));
        assert(s.stack[0].1 == 0);
        assert(0 <= s.stack[0].1 <= acts.len());
    } else {
        lemma_dfs4sa_accounts(b, root, limit, orders.drop_last(), acts);
        let s = dfs4sa_after(b, root, limit, orders.drop_last());
        lemma_dfs4sa_step_accounts(b, root, limit, s, acts, orders.last());
    }
}

/// When the randomized depth-first search from `root` has emptied its
/// stack and some walk reaches the goal by at most `limit` legal moves, it
/// has found a walk to the goal, whatever order it tried the moves in.
pub proof fn law_dfs4sa_exhausted_finds_a_walk(
    b: &Input,
    root: TileStateView,
    limit: i32,
    orders: Seq<Seq<usize>>,
    acts: Seq<usize>,
)
    requires
        root.wf(b),
        on_grid(root.goal),
        dfs4sa_after(b, root, limit, orders).stack.len() == 0,
        root.legal_run(b, acts),
        acts.len() <= limit,
        root.run(b, acts).pos == root.goal,
    ensures
        dfs4sa_after(b, root, limit, orders).best.pos == root.goal,
{
    lemma_dfs4sa_accounts(b, root, limit, orders, acts);
}

/// The best-first search from `root` has stopped on a state at most 2
/// from the goal, or an entry of its heap holds the walk `acts` after some
/// of its first moves, ranked by its distance to the goal.
pub open spec fn bfs_accounts_for(b: &Input, root: TileStateView, s: BfsSearch, acts: Seq<usize>) -> bool {
    ||| s.stopped && s.best.evaluated_score <= 2
    ||| exists|x: int, c: int| {
        &&& 0 <= x < s.heap.len()
        &&& 0 <= c <= acts.len()
        &&& (#[trigger] s.heap[x]).same_walk(#[trigger] root.run(b, acts.take(c)))
        &&& s.heap[x].goal == root.goal
        &&& s.heap[x].evaluated_score == s.heap[x].goal_distance()
    }
}

/// One step of the best-first search keeps the walk `acts` accounted for.
#[verifier::rlimit(40)]
proof fn lemma_bfs_step_accounts(b: &Input, root: TileStateView, s: BfsSearch, acts: Seq<usize>)
    requires
        root.wf(b),
        on_grid(root.goal),
        root.legal_run(b, acts),
        manhattan(root.run(b, acts).pos, root.goal) <= 2,
        bfs_accounts_for(b, root, s, acts),
    ensures
        bfs_accounts_for(b, root, bfs_step(b, s), acts),
{
    let s2 = bfs_step(b, s);
    if !s.stopped && s.heap.len() > 0 {
        crate::team2::lemma_min_index(s.heap);
        let i = crate::team2::min_index(s.heap);
        let v = s.heap[i];
        let rest = s.heap.remove(i);
        if v.evaluated_score > 2 {
            let (x, c) = choose|x: int, c: int| {
                &&& 0 <= x < s.heap.len()
                &&& 0 <= c <= acts.len()
                &&& (#[trigger] s.heap[x]).same_walk(#[trigger] root.run(b, acts.take(c)))
                &&& s.heap[x].goal == root.goal
                &&& s.heap[x].evaluated_score == s.heap[x].goal_distance()
            };
            let u = root.run(b, acts.take(c));
            if x < i {
                assert(s2.heap[x] == s.heap[x]);
            } else if x > i {
                assert(s2.heap[x - 1] == s.heap[x]);
            } else {
                lemma_run_distance(b, root, acts, c);
                assert(c < acts.len()) by {
                    if c == acts.len() {
                        assert(acts.take(c) =~= acts);
                        lemma_wrapped_is_manhattan(v.pos, v.goal);
                    }
                }
                lemma_run_prefix(b, root, acts, c);
                let a = acts[c];
                crate::team2::lemma_same_walk_advanced(v, u, b, a);
                crate::team2::lemma_legal_upto(v, b, 4);
                let legal = v.legal_actions(b);
                assert(legal.contains(a));
                let j = choose|j: int| 0 <= j < legal.len() && legal[j] == a;
                let ch = crate::team2::bfs_children(b, v);
                let child = v.advanced(b, a).evaluated(crate::team2::USE_TARGET_DISTANCE);
                assert(ch[j] == child);
                let n = rest.len() as int;
                assert(s2.heap[n + j] == ch[j]);
                assert(child.same_walk(root.run(b, acts.take(c + 1))));
                assert(child.evaluated_score == child.goal_distance());
            }
        }
    }
}

/// Every step of the best-first search keeps the walk `acts` accounted for.
proof fn lemma_bfs_accounts(b: &Input, root: TileStateView, k: nat, acts: Seq<usize>)
    requires
        root.wf(b),
        on_grid(root.goal),
        root.evaluated_score == root.goal_distance(),
        root.legal_run(b, acts),
        manhattan(root.run(b, acts).pos, root.goal) <= 2,
    ensures
        bfs_accounts_for(b, root, bfs_after(b, root, k), acts),
    decreases k,
{
    if k == 0 {
        let s = bfs_after(b, root, 0);
        assert(acts.take(0) =~= Seq::<usize>::empty());
        assert(s.heap[0].same_walk(root.run(b, acts.take(0))));
    } else {
        lemma_bfs_accounts(b, root, (k - 1) as nat, acts);
        lemma_bfs_step_accounts(b, root, bfs_after(b, root, (k - 1) as nat), acts);
    }
}

/// When the best-first search from `root` (ranked by its distance to the
/// goal) has emptied its heap and some walk of legal moves reaches a cell at
/// most 2 from the goal, the search has stopped on a state at most 2 from
/// the goal.
pub proof fn law_bfs_exhausted_gets_close(b: &Input, root: TileStateView, k: nat, acts: Seq<usize>)
    requires
        root.wf(b),
        on_grid(root.goal),
        root.evaluated_score == root.goal_distance(),
        bfs_after(b, root, k).heap.len() == 0,
        root.legal_run(b, acts),
        manhattan(root.run(b, acts).pos, root.goal) <= 2,
    ensures
        bfs_after(b, root, k).stopped,
        bfs_after(b, root, k).best.evaluated_score <= 2,
{
    lemma_bfs_accounts(b, root, k, acts);
}

/// Beam search one move deep is greedy choice: when the state has legal
/// moves, all of whose next scores are above `-INF`, beam search of any
/// width `w >= 1` and depth 1 answers the move that greedy choice picks.
pub proof fn law_depth_one_beam_search_is_greedy(input: &sample::Input, root: sample::TileStateView, w: nat, r: usize)
    requires
        root.wf(input),
        w >= 1,
        root.legal_actions(input).len() > 0,
        forall|k: int|
            0 <= k < root.legal_actions(input).len() ==> sample::next_score(root, input, #[trigger] root.legal_actions(input)[k]) > -sample::INF,
        sample::greedy_picks(root, input, r),
    ensures
        sample::beam_outcome(input, root, w, 1, 0) is Some,
        sample::beam_outcome(input, root, w, 1, 0)->0.first_action == r,
{
    let acts = root.legal_actions(input);
    let ch = sample::children(root, input, 0);
    let one = seq![root];
    assert(sample::best_index(one) == 0);
    assert(one.remove(0) =~= Seq::<sample::TileStateView>::empty());
    assert(Seq::<sample::TileStateView>::empty() + ch =~= ch);
    assert(sample::select_expand(input, Seq::<sample::TileStateView>::empty(), ch, (w - 1) as nat, 0) == ch);
    assert(sample::select_expand(input, one, Seq::<sample::TileStateView>::empty(), w, 0) == ch);
    assert(ch.len() > 0);
    sample::lemma_best_index(ch);
    let i = sample::best_index(ch);
    assert(sample::beam_iter(input, root, w, 1) == Some((ch, ch[i])));
    assert(sample::beam_outcome(input, root, w, 1, 1) == Some(ch[i]));
    assert(sample::beam_outcome(input, root, w, 1, 0) == Some(ch[i]));
    assert(0 < acts.len());
    assert(sample::next_score(root, input, acts[0]) > -sample::INF);
    assert(r != usize::MAX);
    let k = choose|k: int| {
        &&& 0 <= k < acts.len()
        &&& #[trigger] acts[k] == r
        &&& sample::next_score(root, input, r) > -sample::INF
        &&& forall|m: int| 0 <= m < acts.len() ==> sample::next_score(root, input, #[trigger] acts[m]) <= sample::next_score(root, input, r)
        &&& forall|m: int| 0 <= m < k ==> sample::next_score(root, input, #[trigger] acts[m]) < sample::next_score(root, input, r)
    };
    assert forall|m: int| 0 <= m < ch.len() implies (#[trigger] ch[m]).evaluate_score == sample::next_score(root, input, acts[m]) && ch[m].first_action == acts[m] by {}
    assert(ch[i].evaluate_score == sample::next_score(root, input, acts[i]));
    assert(ch[k].evaluate_score == sample::next_score(root, input, acts[k]));
    if i < k {
        assert(sample::next_score(root, input, acts[i]) < sample::next_score(root, input, r));
    } else if k < i {
        assert(ch[k].evaluate_score < ch[i].evaluate_score);
    }
}

/// Where the distance fits in `i32`, the distance computed in `i32` is the
/// Manhattan distance.
proof fn lemma_wrapped_fits(p: (usize, usize), g: (usize, usize))
    requires
        dist_fits(p, g),
    ensures
        wrapped_distance(p, g) == manhattan(p, g),
{
    assert((p.0 as i32) as int == p.0 as int);
    assert((p.1 as i32) as int == p.1 as int);
    assert((g.0 as i32) as int == g.0 as int);
    assert((g.1 as i32) as int == g.1 as int);
}

/// The distance to the goal (where it fits in `i32`) is never negative and
/// is 0 exactly on the goal, and a legal move changes it by exactly 1.
pub proof fn law_goal_distance_step(b: &Input, v: TileStateView, a: usize)
    requires
        v.wf(b),
        v.is_legal(b, a),
        dist_fits(v.pos, v.goal),
        dist_fits(v.next_pos(a), v.goal),
    ensures
        v.goal_distance() >= 0,
        v.goal_distance() == 0 <==> v.pos == v.goal,
        v.advanced(b, a).goal_distance() == v.goal_distance() + 1
            || v.advanced(b, a).goal_distance() == v.goal_distance() - 1,
{
    lemma_wrapped_fits(v.pos, v.goal);
    lemma_wrapped_fits(v.next_pos(a), v.goal);
    let w = v.advanced(b, a);
    assert(w.pos == v.next_pos(a));
    assert(w.goal == v.goal);
}

/// The moves of the stretch `[start, end)` of a walk, read from its letters.
pub open spec fn stretch_moves(v: TileStateView, start: int, end: int) -> Seq<usize> {
    Seq::new((end - start) as nat, |k: int| letter_action(v.output[start - 1 + k]))
}

/// Replaying the first `j` moves of the destroyed stretch from the
/// destroyed state is legal, walks the stretch's cells, and marks their
/// tiles seen again.
#[verifier::spinoff_prover]
#[verifier::rlimit(60)]
proof fn lemma_stretch_run(b: &Input, v: TileStateView, start: int, end: int, j: int)
    requires
        valid_walk(b, v),
        1 <= start <= end < v.steps.len(),
        0 <= j <= end - start,
    ensures
        ({
            let dv = destroyed(b, v, start, end);
            let acts = stretch_moves(v, start, end).take(j);
            let u = dv.run(b, acts);
            &&& dv.legal_run(b, acts)
            &&& u.pos == v.steps[start - 1 + j]
            &&& u.seen.len() == dv.seen.len()
            &&& forall|t: int| 0 <= t < u.seen.len() ==> #[trigger] u.seen[t] == (dv.seen[t] || on_cells(b, v.steps.subrange(start, start + j), t))
        }),
    decreases j,
{
    let dv = destroyed(b, v, start, end);
    let all = stretch_moves(v, start, end);
    lemma_destroyed_grows(b, v, start, end);
    if j == 0 {
        assert(all.take(0) =~= Seq::<usize>::empty());
        assert(dv.run(b, all.take(0)) == dv);
        assert forall|t: int| 0 <= t < dv.seen.len() implies #[trigger] dv.seen[t] == (dv.seen[t] || on_cells(b, v.steps.subrange(start, start), t)) by {
            if on_cells(b, v.steps.subrange(start, start), t) {
                let k = choose|k: int| 0 <= k < v.steps.subrange(start, start).len() && #[trigger] tile_at(b, v.steps.subrange(start, start)[k]) == t;
            }
        }
    } else {
        lemma_stretch_run(b, v, start, end, j - 1);
        let p = all.take(j - 1);
        let u = dv.run(b, p);
        let a = all[j - 1];
        assert(all.take(j) =~= p.push(a));
        let k = start + j - 1;
        assert(v.steps[k] == spec_step(v.steps[k - 1].0, v.steps[k - 1].1, letter_action(v.output[k - 1])));
        assert(u.next_pos(a) == v.steps[k]);
        assert(on_grid(v.steps[k]));
        let tt = tile_at(b, v.steps[k]);
        assert(0 <= tt < dv.seen.len());
        assert(!on_cells(b, dv.steps, tt)) by {
            if on_cells(b, dv.steps, tt) {
                let x = choose|x: int| 0 <= x < dv.steps.len() && #[trigger] tile_at(b, dv.steps[x]) == tt;
                assert(dv.steps[x] == v.steps[x]);
                assert(b.tile(v.steps[x].0 as int, v.steps[x].1 as int) != b.tile(v.steps[k].0 as int, v.steps[k].1 as int));
            }
        }
        let suffix = v.steps.skip(end);
        assert(!on_cells(b, suffix, tt)) by {
            if on_cells(b, suffix, tt) {
                let x = choose|x: int| 0 <= x < suffix.len() && #[trigger] tile_at(b, suffix[x]) == tt;
                assert(suffix[x] == v.steps[end + x]);
                assert(b.tile(v.steps[k].0 as int, v.steps[k].1 as int) != b.tile(v.steps[end + x].0 as int, v.steps[end + x].1 as int));
            }
        }
        let before = v.steps.subrange(start, start + j - 1);
        let after = v.steps.subrange(start, start + j);
        assert(!on_cells(b, before, tt)) by {
            if on_cells(b, before, tt) {
                let x = choose|x: int| 0 <= x < before.len() && #[trigger] tile_at(b, before[x]) == tt;
                assert(before[x] == v.steps[start + x]);
                assert(b.tile(v.steps[start + x].0 as int, v.steps[start + x].1 as int) != b.tile(v.steps[k].0 as int, v.steps[k].1 as int));
            }
        }
        assert(!u.seen[tt]);
        assert(letter_action(v.output[k - 1]) < 4);
        assert(u.is_legal(b, a));
        crate::team2::lemma_run_push(dv, b, p, a);
        let w = dv.run(b, all.take(j));
        assert(w == u.advanced(b, a));
        assert forall|t: int| 0 <= t < w.seen.len() implies #[trigger] w.seen[t] == (dv.seen[t] || on_cells(b, after, t)) by {
            if t == tt {
                assert(after[j - 1] == v.steps[k]);
                assert(tile_at(b, after[j - 1]) == t);
            } else {
                assert(w.seen[t] == u.seen[t]);
                if on_cells(b, before, t) {
                    let x = choose|x: int| 0 <= x < before.len() && #[trigger] tile_at(b, before[x]) == t;
                    assert(after[x] == before[x]);
                }
                if on_cells(b, after, t) {
                    let x = choose|x: int| 0 <= x < after.len() && #[trigger] tile_at(b, after[x]) == t;
                    assert(x < j - 1);
                    assert(after[x] == before[x]);
                }
            }
        }
    }
}

/// The destroyed stretch itself reconnects: its moves, replayed from the
/// destroyed state, are legal and end on cell `end - 1`.
pub proof fn lemma_stretch_reconnects(b: &Input, v: TileStateView, start: int, end: int)
    requires
        valid_walk(b, v),
        1 <= start <= end < v.steps.len(),
    ensures
        destroyed(b, v, start, end).legal_run(b, stretch_moves(v, start, end)),
        destroyed(b, v, start, end).run(b, stretch_moves(v, start, end)).pos == v.steps[end - 1],
        stretch_moves(v, start, end).len() == end - start,
{
    lemma_stretch_run(b, v, start, end, end - start);
    assert(stretch_moves(v, start, end).take(end - start) =~= stretch_moves(v, start, end));
}

/// When the randomized rebuild of the destroyed stretch `[start, end)` of a
/// valid walk ran until its stack was empty (the clock did not stop it),
/// and the move limit is at least the stretch's length, the rebuilt walk
/// spliced back is a valid walk with the same first and last cells.
pub proof fn law_unstopped_rebuild_is_valid_walk(
    b: &Input,
    v: TileStateView,
    start: int,
    end: int,
    limit: i32,
    orders: Seq<Seq<usize>>,
)
    requires
        valid_walk(b, v),
        1 <= start <= end < v.steps.len(),
        end - start <= limit,
        dfs4sa_after(b, destroyed(b, v, start, end), limit, orders).stack.len() == 0,
        crate::team2::dfs4sa_result(
            b,
            destroyed(b, v, start, end),
            dfs4sa_after(b, destroyed(b, v, start, end), limit, orders).best,
            limit as int,
        ),
    ensures
        valid_walk(b, reattached(dfs4sa_after(b, destroyed(b, v, start, end), limit, orders).best, v, end)),
        reattached(dfs4sa_after(b, destroyed(b, v, start, end), limit, orders).best, v, end).steps[0] == v.steps[0],
        reattached(dfs4sa_after(b, destroyed(b, v, start, end), limit, orders).best, v, end).steps.last() == v.steps.last(),
{
    let dv = destroyed(b, v, start, end);
    let d = dfs4sa_after(b, dv, limit, orders).best;
    lemma_destroyed_grows(b, v, start, end);
    lemma_stretch_reconnects(b, v, start, end);
    assert(on_grid(v.steps[end - 1]));
    law_dfs4sa_exhausted_finds_a_walk(b, dv, limit, orders, stretch_moves(v, start, end));
    if d == dv {
        crate::team2::lemma_extends_refl(dv, d, b);
    } else {
        crate::team2::lemma_extends_to_extends(dv, d, b, limit as int);
    }
    law_splice_is_valid_walk(b, v, start, end, d);
}

/// No state of the beams is past the last turn `end_turn`, and all of them
/// end on that turn.
pub open spec fn within_last_turn(beams: Seq<Seq<sample::TileStateView>>, end_turn: usize) -> bool {
    forall|t: int, k: int|
        0 <= t < beams.len() && 0 <= k < beams[t].len() ==> (#[trigger] beams[t][k]).turn <= end_turn
            && beams[t][k].end_turn == end_turn
}

/// Chokudai search's work on one beam never creates a state past the last
/// turn: it expands only states whose game is not over.
proof fn lemma_chokudai_step_turns(input: &sample::Input, beams: Seq<Seq<sample::TileStateView>>, t: nat, w: nat, e: usize)
    requires
        t + 1 < beams.len(),
        within_last_turn(beams, e),
    ensures
        within_last_turn(sample::chokudai_step(input, beams, t, w), e),
        sample::chokudai_step(input, beams, t, w).len() == beams.len(),
    decreases w,
{
    let layer = beams[t as int];
    if w > 0 && layer.len() > 0 && !layer[sample::best_index(layer)].is_done() {
        sample::lemma_best_index(layer);
        let b = sample::best_index(layer);
        let v = layer[b];
        assert(v.turn <= e && v.end_turn == e);
        assert(v.turn < e);
        let ch = sample::children(v, input, t);
        let nb = beams.update(t as int, layer.remove(b)).update(t as int + 1, beams[t as int + 1] + ch);
        assert forall|x: int, k: int| 0 <= x < nb.len() && 0 <= k < nb[x].len() implies (#[trigger] nb[x][k]).turn <= e && nb[x][k].end_turn == e by {
            if x == t + 1 {
                let old_len = beams[t as int + 1].len();
                if k >= old_len {
                    assert(nb[x][k] == ch[k - old_len]);
                    assert(ch[k - old_len].turn == v.turn + 1);
                } else {
                    assert(nb[x][k] == beams[x][k]);
                }
            } else if x == t {
                if k < b {
                    assert(nb[x][k] == layer[k]);
                } else {
                    assert(nb[x][k] == layer[k + 1]);
                }
            } else {
                assert(nb[x] == beams[x]);
            }
        }
        lemma_chokudai_step_turns(input, nb, t, (w - 1) as nat, e);
    }
}

proof fn lemma_chokudai_sweep_turns(input: &sample::Input, beams: Seq<Seq<sample::TileStateView>>, t: nat, d: nat, w: nat, e: usize)
    requires
        beams.len() == d + 1,
        within_last_turn(beams, e),
    ensures
        within_last_turn(sample::chokudai_sweep(input, beams, t, d, w), e),
        sample::chokudai_sweep(input, beams, t, d, w).len() == d + 1,
    decreases d - t,
{
    if t < d {
        lemma_chokudai_step_turns(input, beams, t, w, e);
        lemma_chokudai_sweep_turns(input, sample::chokudai_step(input, beams, t, w), t + 1, d, w, e);
    }
}

proof fn lemma_chokudai_rounds_turns(input: &sample::Input, beams: Seq<Seq<sample::TileStateView>>, n: nat, d: nat, w: nat, e: usize)
    requires
        beams.len() == d + 1,
        within_last_turn(beams, e),
    ensures
        within_last_turn(sample::chokudai_rounds(input, beams, n, d, w), e),
    decreases n,
{
    if n > 0 {
        lemma_chokudai_sweep_turns(input, beams, 0, d, w, e);
        lemma_chokudai_rounds_turns(input, sample::chokudai_sweep(input, beams, 0, d, w), (n - 1) as nat, d, w, e);
    }
}

/// Chokudai search never plans past the game's last turn: from a root that
/// is not past its last turn, every state in every beam after any number of
/// rounds is not past that turn either, because a state whose game is over
/// is never expanded. So the answer is a first move of a plan that ends by
/// the last turn.
pub proof fn law_chokudai_never_passes_last_turn(input: &sample::Input, root: sample::TileStateView, n: nat, d: nat, w: nat)
    requires
        root.turn <= root.end_turn,
    ensures
        within_last_turn(sample::chokudai_rounds(input, sample::chokudai_start(root, d), n, d, w), root.end_turn),
{
    let start = sample::chokudai_start(root, d);
    assert forall|t: int, k: int| 0 <= t < start.len() && 0 <= k < start[t].len() implies (#[trigger] start[t][k]).turn <= root.end_turn
        && start[t][k].end_turn == root.end_turn by {
        assert(t == 0);
        assert(start[t][k] == root);
    }
    lemma_chokudai_rounds_turns(input, start, n, d, w, root.end_turn);
}

proof fn lemma_beam_outcome_deeper(input: &sample::Input, root: sample::TileStateView, w: nat, d: nat, t: nat)
    requires
        1 <= d <= usize::MAX,
        t <= d,
        sample::beam_outcome(input, root, w, d, t) matches Some(b) && b.is_done(),
    ensures
        sample::beam_outcome(input, root, w, usize::MAX as nat, t) == sample::beam_outcome(input, root, w, d, t),
    decreases d - t,
{
    if t < d {
        match sample::beam_iter(input, root, w, t) {
            None => {},
            Some((_, b)) => {
                if !(t >= 1 && b.is_done()) {
                    lemma_beam_outcome_deeper(input, root, w, d, t + 1);
                }
            },
        }
    }
}

/// Beam search cut short only by reaching a final state agrees with beam
/// search to a fixed depth: when beam search of depth `d >= 1` ends on a
/// best state whose game is over, beam search without a depth limit (the
/// timed search when the clock does not stop it) ends on the same state,
/// and so answers the same first move.
pub proof fn law_unlimited_beam_search_agrees(input: &sample::Input, root: sample::TileStateView, w: nat, d: nat)
    requires
        1 <= d <= usize::MAX,
        sample::beam_outcome(input, root, w, d, 0) matches Some(b) && b.is_done(),
    ensures
        sample::beam_outcome(input, root, w, usize::MAX as nat, 0) == sample::beam_outcome(input, root, w, d, 0),
{
    lemma_beam_outcome_deeper(input, root, w, d, 0);
}

/// Destroying the stretch `[start, end)` and splicing a rebuilt stretch in
/// its place touches nothing else: the walk keeps its first `start` cells
/// and ends with all of its cells from `end` on.
pub proof fn law_splice_keeps_the_rest(b: &Input, v: TileStateView, start: int, end: int, d: TileStateView)
    requires
        v.wf_path(b),
        1 <= start <= end <= v.steps.len(),
        d == destroyed(b, v, start, end) || destroyed(b, v, start, end).extends(b, d),
    ensures
        reattached(d, v, end).steps.len() >= start + (v.steps.len() - end),
        reattached(d, v, end).steps.take(start) == v.steps.take(start),
        reattached(d, v, end).steps.skip(reattached(d, v, end).steps.len() - (v.steps.len() - end)) == v.steps.skip(end),
{
    let dv = destroyed(b, v, start, end);
    lemma_cong32_refl(dv.game_score as int);
    lemma_rebuilt_score(b, dv, d, dv.game_score as int);
    let c = reattached(d, v, end);
    assert(c.steps == d.steps + v.steps.skip(end));
    assert(dv.steps == v.steps.take(start));
    assert(c.steps.take(start) =~= v.steps.take(start));
    assert(c.steps.skip(c.steps.len() - (v.steps.len() - end)) =~= v.steps.skip(end));
}

} // verus!
