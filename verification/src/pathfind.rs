//! Click-to-walk path finding: A* over the world grid with eight directions of movement,
//! no corner cutting, and every other waypoint of the found route kept, ending on the goal.
use vstd::prelude::*;
use crate::tiles::{TileKind, WORLD_W, WORLD_H, WORLD_CELLS};
use crate::office::{OfficeMap, in_world, grid_wf, grid_tile, open_tile};

verus! {

/// One move from `a` to `b`: to one of the eight neighbouring tiles, onto an open tile,
/// and for a diagonal move with both tiles beside the diagonal open as well.
pub open spec fn step_ok(w: Seq<Vec<TileKind>>, a: (i32, i32), b: (i32, i32)) -> bool {
    let dx = b.0 - a.0;
    let dy = b.1 - a.1;
    &&& -1 <= dx <= 1
    &&& -1 <= dy <= 1
    &&& !(dx == 0 && dy == 0)
    &&& open_tile(w, b)
    &&& (dx != 0 && dy != 0) ==> (open_tile(w, (b.0, a.1)) && open_tile(w, (a.0, b.1)))
}

/// `p` is a route of single moves from `start` to `goal`.
pub open spec fn valid_route(
    w: Seq<Vec<TileKind>>,
    p: Seq<(i32, i32)>,
    start: (i32, i32),
    goal: (i32, i32),
) -> bool {
    &&& p.len() >= 1
    &&& p[0] == start
    &&& p.last() == goal
    &&& forall|i: int| 0 <= i < p.len() - 1 ==> step_ok(w, #[trigger] p[i], p[i + 1])
}

/// Some route of single moves leads from `start` to `goal`.
pub open spec fn reachable(w: Seq<Vec<TileKind>>, start: (i32, i32), goal: (i32, i32)) -> bool {
    exists|p: Seq<(i32, i32)>| valid_route(w, p, start, goal)
}

/// The entries of `p` at even positions: the first, the third, and so on.
pub open spec fn every_other(p: Seq<(i32, i32)>) -> Seq<(i32, i32)> {
    Seq::new(((p.len() + 1) / 2) as nat, |j: int| p[2 * j])
}

/// The waypoints kept of a route `p`: every other tile from the first, and the last tile
/// always, so that the walk ends on the goal.
pub open spec fn thinned(p: Seq<(i32, i32)>) -> Seq<(i32, i32)> {
    if p.len() % 2 == 0 {
        every_other(p).push(p.last())
    } else {
        every_other(p)
    }
}

/// No tile occurs twice in `p`.
pub open spec fn no_repeats(p: Seq<(i32, i32)>) -> bool {
    forall|i: int, j: int| 0 <= i < j < p.len() ==> #[trigger] p[i] != #[trigger] p[j]
}

pub open spec fn abs_int(v: int) -> int {
    if v < 0 { -v } else { v }
}

/// The start tile's coordinates leave room for its neighbours and for its Manhattan
/// distance to `goal` in an `i32`.
pub open spec fn start_fits(start: (i32, i32), goal: (i32, i32)) -> bool {
    &&& start.0 < i32::MAX
    &&& start.1 < i32::MAX
    &&& abs_int(start.0 - goal.0) + abs_int(start.1 - goal.1) <= i32::MAX
}

/// Index of the tile `p` in a row-major array of the world.
pub open spec fn cell(p: (i32, i32)) -> int {
    p.1 as int * 60 + p.0 as int
}

spec fn g_at(gs: Seq<i32>, p: (i32, i32)) -> i32 {
    gs[cell(p)]
}

spec fn hp_at(hp: Seq<bool>, p: (i32, i32)) -> bool {
    hp[cell(p)]
}

spec fn par_at(par: Seq<(i32, i32)>, p: (i32, i32)) -> (i32, i32) {
    par[cell(p)]
}

/// `p` has been reached by the search: it is the start, or a tile with a known cost.
spec fn reached(gs: Seq<i32>, start: (i32, i32), p: (i32, i32)) -> bool {
    p == start || (in_world(p) && g_at(gs, p) < i32::MAX)
}

/// The best known cost of `p`; the start off the grid costs 0.
spec fn gval(gs: Seq<i32>, p: (i32, i32)) -> int {
    if in_world(p) { g_at(gs, p) as int } else { 0 }
}

/// Every tile one move away from `p` has been reached.
spec fn closed(w: Seq<Vec<TileKind>>, gs: Seq<i32>, start: (i32, i32), p: (i32, i32)) -> bool {
    forall|q: (i32, i32)| #[trigger] step_ok(w, p, q) ==> reached(gs, start, q)
}

/// Cost of one move from `a` to `b`: 14 for a diagonal move, 10 for a straight one.
pub open spec fn step_cost(a: (i32, i32), b: (i32, i32)) -> int {
    if a.0 != b.0 && a.1 != b.1 { 14 } else { 10 }
}

/// Cost of walking the route `p`: the sum of the costs of its moves.
pub open spec fn route_cost(p: Seq<(i32, i32)>) -> int
    decreases p.len(),
{
    if p.len() <= 1 {
        0
    } else {
        route_cost(p.drop_last()) + step_cost(p[p.len() - 2], p.last())
    }
}

/// Manhattan distance between `p` and `q`.
pub open spec fn manh(p: (i32, i32), q: (i32, i32)) -> int {
    abs_int(p.0 - q.0) + abs_int(p.1 - q.1)
}

/// Some open entry for `p` has an estimate no larger than `p`'s known cost plus ten times
/// its Manhattan distance to the goal: `p` is still to be expanded with its known cost.
spec fn fresh(open: Seq<(i32, (i32, i32))>, gs: Seq<i32>, goal: (i32, i32), p: (i32, i32)) -> bool {
    exists|k: int| 0 <= k < open.len() && (#[trigger] open[k]).1 == p && open[k].0 <= gval(gs, p) + 10 * manh(p, goal)
}

/// `p` has been expanded with its known cost: every tile one move away has been reached,
/// at a cost no larger than through `p`.
spec fn settled(w: Seq<Vec<TileKind>>, gs: Seq<i32>, start: (i32, i32), p: (i32, i32)) -> bool {
    forall|q: (i32, i32)| #[trigger] step_ok(w, p, q) ==> reached(gs, start, q) && gval(gs, q) <= gval(gs, p) + step_cost(p, q)
}

/// Number of entries of `s` below `v`.
spec fn count_below(s: Seq<i32>, v: int) -> nat
    decreases s.len(),
{
    if s.len() == 0 {
        0
    } else {
        count_below(s.drop_last(), v) + (if (s.last() as int) < v { 1nat } else { 0nat })
    }
}

/// Upper bound of every known cost, used to weigh unknown costs.
spec fn cost_cap() -> int {
    42015
}

spec fn weight(x: i32) -> int {
    if x < i32::MAX { x as int } else { cost_cap() }
}

spec fn weight_sum(s: Seq<i32>) -> int
    decreases s.len(),
{
    if s.len() == 0 {
        0
    } else {
        weight_sum(s.drop_last()) + weight(s.last())
    }
}

proof fn lemma_count_le(s1: Seq<i32>, v1: int, s2: Seq<i32>, v2: int)
    requires
        s1.len() == s2.len(),
        forall|i: int| 0 <= i < s1.len() && (s1[i] as int) < v1 ==> (s2[i] as int) < v2,
    ensures
        count_below(s1, v1) <= count_below(s2, v2),
    decreases s1.len(),
{
    if s1.len() > 0 {
        lemma_count_le(s1.drop_last(), v1, s2.drop_last(), v2);
    }
}

proof fn lemma_count_lt(s1: Seq<i32>, v1: int, s2: Seq<i32>, v2: int, j: int)
    requires
        s1.len() == s2.len(),
        forall|i: int| 0 <= i < s1.len() && (s1[i] as int) < v1 ==> (s2[i] as int) < v2,
        0 <= j < s1.len(),
        !((s1[j] as int) < v1),
        (s2[j] as int) < v2,
    ensures
        count_below(s1, v1) < count_below(s2, v2),
    decreases s1.len(),
{
    if j == s1.len() - 1 {
        lemma_count_le(s1.drop_last(), v1, s2.drop_last(), v2);
    } else {
        lemma_count_lt(s1.drop_last(), v1, s2.drop_last(), v2, j);
    }
}

proof fn lemma_count_bound(s: Seq<i32>, v: int)
    ensures
        count_below(s, v) <= s.len(),
    decreases s.len(),
{
    if s.len() > 0 {
        lemma_count_bound(s.drop_last(), v);
    }
}

proof fn lemma_weight_sum_update(s: Seq<i32>, k: int, x: i32)
    requires
        0 <= k < s.len(),
    ensures
        weight_sum(s.update(k, x)) == weight_sum(s) - weight(s[k]) + weight(x),
    decreases s.len(),
{
    if k < s.len() - 1 {
        lemma_weight_sum_update(s.drop_last(), k, x);
        assert(s.update(k, x).drop_last() =~= s.drop_last().update(k, x));
    } else {
        assert(s.update(k, x).drop_last() =~= s.drop_last());
    }
}

proof fn lemma_weight_sum_nonneg(s: Seq<i32>)
    requires
        forall|i: int| 0 <= i < s.len() ==> s[i] >= 0,
    ensures
        weight_sum(s) >= 0,
    decreases s.len(),
{
    if s.len() > 0 {
        lemma_weight_sum_nonneg(s.drop_last());
    }
}

proof fn lemma_cell(p: (i32, i32), q: (i32, i32))
    requires
        in_world(p),
        in_world(q),
    ensures
        0 <= cell(p) < 3000,
        cell(p) == cell(q) ==> p == q,
{
}

proof fn lemma_fresh_after_remove(open: Seq<(i32, (i32, i32))>, gs: Seq<i32>, goal: (i32, i32), k: int, p: (i32, i32))
    requires
        0 <= k < open.len(),
        fresh(open, gs, goal, p),
        open[k].1 != p,
    ensures
        fresh(open.remove(k), gs, goal, p),
{
    let j = choose|j: int| 0 <= j < open.len() && (#[trigger] open[j]).1 == p && open[j].0 <= gval(gs, p) + 10 * manh(p, goal);
    if j < k {
        assert(open.remove(k)[j] == open[j]);
    } else {
        assert(open.remove(k)[j - 1] == open[j]);
    }
}

/// Pushing an entry keeps a tile fresh, under costs that did not change for it.
proof fn lemma_fresh_after_push(
    open: Seq<(i32, (i32, i32))>,
    gs: Seq<i32>,
    ng: Seq<i32>,
    goal: (i32, i32),
    e: (i32, (i32, i32)),
    p: (i32, i32),
)
    requires
        fresh(open, gs, goal, p) && gval(ng, p) == gval(gs, p) || e.1 == p && e.0 <= gval(ng, p) + 10 * manh(p, goal),
    ensures
        fresh(open.push(e), ng, goal, p),
{
    if e.1 == p && e.0 <= gval(ng, p) + 10 * manh(p, goal) {
        assert(open.push(e)[open.len() as int] == e);
    } else {
        let j = choose|j: int| 0 <= j < open.len() && (#[trigger] open[j]).1 == p && open[j].0 <= gval(gs, p) + 10 * manh(p, goal);
        assert(open.push(e)[j] == open[j]);
    }
}

/// Walking a route from `q[j]` on to its end costs at least seven times the Manhattan
/// distance from `q[j]` to the end.
proof fn lemma_rest_cost(w: Seq<Vec<TileKind>>, q: Seq<(i32, i32)>, start: (i32, i32), goal: (i32, i32), j: int)
    requires
        valid_route(w, q, start, goal),
        0 <= j < q.len(),
    ensures
        7 * manh(q[j], goal) <= route_cost(q) - route_cost(q.take(j + 1)),
    decreases q.len() - j,
{
    if j == q.len() - 1 {
        assert(q.take(j + 1) =~= q);
    } else {
        lemma_rest_cost(w, q, start, goal, j + 1);
        assert(step_ok(w, q[j], q[j + 1]));
        assert(q.take(j + 2).drop_last() =~= q.take(j + 1));
    }
}

/// A route's cost is never negative.
proof fn lemma_cost_nonneg(p: Seq<(i32, i32)>)
    ensures
        route_cost(p) >= 0,
    decreases p.len(),
{
    if p.len() > 1 {
        lemma_cost_nonneg(p.drop_last());
    }
}

/// Along any route from `start`, every tile is reached once every reached tile is closed.
proof fn lemma_route_reached(
    w: Seq<Vec<TileKind>>,
    gs: Seq<i32>,
    start: (i32, i32),
    goal: (i32, i32),
    p: Seq<(i32, i32)>,
    i: int,
)
    requires
        valid_route(w, p, start, goal),
        forall|q: (i32, i32)| #[trigger] reached(gs, start, q) ==> closed(w, gs, start, q),
        0 <= i < p.len(),
    ensures
        reached(gs, start, p[i]),
    decreases i,
{
    if i > 0 {
        lemma_route_reached(w, gs, start, goal, p, i - 1);
        assert(step_ok(w, p[i - 1], p[i]));
    }
}

/// `b` read from its end to its start.
spec fn reversed(b: Seq<(i32, i32)>) -> Seq<(i32, i32)> {
    Seq::new(b.len(), |i: int| b[b.len() - 1 - i])
}

/// A chain of parents followed back from the goal to the start, each step a move and
/// each tile of lower cost than the one before, read forwards is a route without repeats.
proof fn lemma_reversed_route(
    w: Seq<Vec<TileKind>>,
    gs: Seq<i32>,
    back: Seq<(i32, i32)>,
    start: (i32, i32),
    goal: (i32, i32),
)
    requires
        back.len() >= 1,
        back[0] == goal,
        back.last() == start,
        forall|i: int| 0 <= i < back.len() - 1 ==> step_ok(w, #[trigger] back[i + 1], back[i]),
        forall|i: int, j: int| 0 <= i < j < back.len() ==> gval(gs, #[trigger] back[j]) < gval(gs, #[trigger] back[i]),
    ensures
        valid_route(w, reversed(back), start, goal),
        no_repeats(reversed(back)),
{
    let p = reversed(back);
    let n = back.len();
    assert forall|i: int| 0 <= i < p.len() - 1 implies step_ok(w, #[trigger] p[i], p[i + 1]) by {
        let j = n - 2 - i;
        assert(step_ok(w, back[j + 1], back[j]));
    }
    assert forall|i: int, j: int| 0 <= i < j < p.len() implies #[trigger] p[i] != #[trigger] p[j] by {
        assert(gval(gs, back[n - 1 - i]) < gval(gs, back[n - 1 - j]));
    }
}

/// Along a route `q` from `start`, while every reached tile is fresh or settled, there is
/// a tile `q[j]` with `j <= i` that is reached at no more than the cost of the route up to
/// it, and that is fresh unless it is `q[i]`.
proof fn lemma_first_fresh(
    w: Seq<Vec<TileKind>>,
    gs: Seq<i32>,
    open: Seq<(i32, (i32, i32))>,
    start: (i32, i32),
    goal: (i32, i32),
    q: Seq<(i32, i32)>,
    i: int,
) -> (j: int)
    requires
        valid_route(w, q, start, goal),
        0 <= i < q.len(),
        gval(gs, start) == 0,
        forall|p: (i32, i32)| #[trigger] reached(gs, start, p) ==> fresh(open, gs, goal, p) || settled(w, gs, start, p),
    ensures
        0 <= j <= i,
        reached(gs, start, q[j]),
        gval(gs, q[j]) <= route_cost(q.take(j + 1)),
        fresh(open, gs, goal, q[j]) || j == i,
    decreases i,
{
    if i == 0 {
        assert(q.take(1).len() == 1);
        assert(reached(gs, start, q[0]));
        0
    } else {
        let j = lemma_first_fresh(w, gs, open, start, goal, q, i - 1);
        if fresh(open, gs, goal, q[j]) {
            j
        } else {
            assert(settled(w, gs, start, q[i - 1]));
            assert(step_ok(w, q[i - 1], q[i]));
            assert(q.take(i + 1).drop_last() =~= q.take(i));
            i
        }
    }
}

/// When the goal's entry is the open entry of least estimate, the goal's known cost is at
/// most ten sevenths of the cost of any route from the start to the goal: the estimate
/// never exceeds ten sevenths of the true remaining cost.
proof fn lemma_pop_bound(
    w: Seq<Vec<TileKind>>,
    gs: Seq<i32>,
    open: Seq<(i32, (i32, i32))>,
    start: (i32, i32),
    goal: (i32, i32),
    k: int,
    q: Seq<(i32, i32)>,
)
    requires
        valid_route(w, q, start, goal),
        0 <= k < open.len(),
        open[k].1 == goal,
        forall|j: int| 0 <= j < open.len() ==> open[k].0 <= (#[trigger] open[j]).0,
        forall|j: int| 0 <= j < open.len() && (#[trigger] open[j]).1 == goal ==> open[j].0 >= gval(gs, goal),
        fresh(open, gs, goal, goal),
        gval(gs, start) == 0,
        forall|p: (i32, i32)| #[trigger] reached(gs, start, p) ==> fresh(open, gs, goal, p) || settled(w, gs, start, p),
    ensures
        7 * gval(gs, goal) <= 10 * route_cost(q),
{
    let last = q.len() - 1;
    let j = lemma_first_fresh(w, gs, open, start, goal, q, last);
    let n = q[j];
    assert(fresh(open, gs, goal, n));
    let kn = choose|kn: int| 0 <= kn < open.len() && (#[trigger] open[kn]).1 == n && open[kn].0 <= gval(gs, n) + 10 * manh(n, goal);
    assert(gval(gs, goal) <= open[k].0);
    assert(open[k].0 <= open[kn].0);
    lemma_rest_cost(w, q, start, goal, j);
    lemma_cost_nonneg(q.take(j + 1));
    let c_pre = route_cost(q.take(j + 1));
    let c = route_cost(q);
    let m = manh(n, goal);
    assert(gval(gs, n) <= c_pre);
    assert(7 * m <= c - c_pre);
    assert(gval(gs, goal) <= c_pre + 10 * m);
    assert(7 * gval(gs, goal) <= 7 * c_pre + 70 * m);
    assert(c_pre >= 0);
    assert(70 * m <= 10 * c - 10 * c_pre);
    assert(7 * gval(gs, goal) <= 10 * c);
}

/// Adding to a parent chain `b` a tile `prev` cheaper by at least the move's cost keeps
/// the costs falling along the chain and adds the move to the route's cost.
proof fn lemma_back_push(gs: Seq<i32>, b: Seq<(i32, i32)>, prev: (i32, i32))
    requires
        b.len() >= 1,
        gval(gs, prev) + step_cost(prev, b.last()) <= gval(gs, b.last()),
        forall|i: int, j: int| 0 <= i < j < b.len() ==> gval(gs, #[trigger] b[j]) < gval(gs, #[trigger] b[i]),
    ensures
        forall|i: int, j: int| 0 <= i < j < b.push(prev).len() ==> gval(gs, #[trigger] b.push(prev)[j]) < gval(
            gs,
            #[trigger] b.push(prev)[i],
        ),
        route_cost(reversed(b.push(prev))) == step_cost(prev, b.last()) + route_cost(reversed(b)),
{
    let c = b.push(prev);
    assert(reversed(c) =~= seq![prev] + reversed(b));
    lemma_cost_prepend(prev, reversed(b));
    assert forall|i: int, j: int| 0 <= i < j < c.len() implies gval(gs, #[trigger] c[j]) < gval(gs, #[trigger] c[i]) by {
        if j == c.len() - 1 {
            assert(c[i] == b[i]);
            if i < b.len() - 1 {
                assert(gval(gs, b[b.len() - 1]) < gval(gs, b[i]));
            }
        } else {
            assert(c[i] == b[i]);
            assert(c[j] == b[j]);
        }
    }
}

/// `lemma_pop_bound` for every route from the start to the goal.
proof fn lemma_pop_bound_all(
    w: Seq<Vec<TileKind>>,
    gs: Seq<i32>,
    open: Seq<(i32, (i32, i32))>,
    start: (i32, i32),
    goal: (i32, i32),
    k: int,
)
    requires
        0 <= k < open.len(),
        open[k].1 == goal,
        forall|j: int| 0 <= j < open.len() ==> open[k].0 <= (#[trigger] open[j]).0,
        forall|j: int| 0 <= j < open.len() && (#[trigger] open[j]).1 == goal ==> open[j].0 >= gval(gs, goal),
        fresh(open, gs, goal, goal),
        gval(gs, start) == 0,
        forall|p: (i32, i32)| #[trigger] reached(gs, start, p) ==> fresh(open, gs, goal, p) || settled(w, gs, start, p),
    ensures
        forall|q: Seq<(i32, i32)>| #[trigger] valid_route(w, q, start, goal) ==> 7 * gval(gs, goal) <= 10 * route_cost(q),
{
    assert forall|q: Seq<(i32, i32)>| #[trigger] valid_route(w, q, start, goal) implies 7 * gval(gs, goal) <= 10 * route_cost(q) by {
        lemma_pop_bound(w, gs, open, start, goal, k, q);
    }
}

/// Putting `x` in front of a route adds the cost of the move from `x` to its first tile.
proof fn lemma_cost_prepend(x: (i32, i32), s: Seq<(i32, i32)>)
    requires
        s.len() >= 1,
    ensures
        route_cost(seq![x] + s) == step_cost(x, s[0]) + route_cost(s),
    decreases s.len(),
{
    let t = seq![x] + s;
    assert(t.len() == s.len() + 1);
    assert(t[t.len() - 2] == (if s.len() == 1 { x } else { s[s.len() - 2] }));
    assert(t.last() == s.last());
    assert(route_cost(t) == route_cost(t.drop_last()) + step_cost(t[t.len() - 2], t.last()));
    if s.len() == 1 {
        assert(t.drop_last() =~= seq![x]);
        assert(route_cost(seq![x]) == 0);
        assert(route_cost(s) == 0);
    } else {
        assert(t.drop_last() =~= seq![x] + s.drop_last());
        lemma_cost_prepend(x, s.drop_last());
        assert(s.drop_last()[0] == s[0]);
        assert(route_cost(s) == route_cost(s.drop_last()) + step_cost(s[s.len() - 2], s.last()));
    }
}

/// The thinned waypoints start with a route's first tile and end with its last.
proof fn lemma_thinned_ends(p: Seq<(i32, i32)>)
    requires
        p.len() >= 1,
    ensures
        thinned(p).len() >= 1,
        thinned(p)[0] == p[0],
        thinned(p).last() == p.last(),
{
    let n = p.len() as int;
    if n % 2 == 1 {
        assert(2 * ((n + 1) / 2 - 1) == n - 1);
        assert(every_other(p).last() == p[2 * ((n + 1) / 2 - 1)]);
    }
}

/// Horizontal step of the `k`-th search direction.
spec fn dir_dx(k: int) -> int {
    if k == 2 || k == 4 || k == 5 {
        1
    } else if k == 3 || k == 6 || k == 7 {
        -1
    } else {
        0
    }
}

/// Vertical step of the `k`-th search direction.
spec fn dir_dy(k: int) -> int {
    if k == 0 || k == 4 || k == 6 {
        1
    } else if k == 1 || k == 5 || k == 7 {
        -1
    } else {
        0
    }
}

/// The search direction that moves by `dx`, `dy`.
spec fn dir_index(dx: int, dy: int) -> int {
    if dx == 0 && dy == 1 {
        0
    } else if dx == 0 && dy == -1 {
        1
    } else if dx == 1 && dy == 0 {
        2
    } else if dx == -1 && dy == 0 {
        3
    } else if dx == 1 && dy == 1 {
        4
    } else if dx == 1 && dy == -1 {
        5
    } else if dx == -1 && dy == 1 {
        6
    } else {
        7
    }
}

fn dir(k: usize) -> (d: (i32, i32))
    requires
        k < 8,
    ensures
        d.0 == dir_dx(k as int),
        d.1 == dir_dy(k as int),
        dir_index(d.0 as int, d.1 as int) == k,
{
    match k {
        0 => (0, 1),
        1 => (0, -1),
        2 => (1, 0),
        3 => (-1, 0),
        4 => (1, 1),
        5 => (1, -1),
        6 => (-1, 1),
        _ => (-1, -1),
    }
}

/// Manhattan distance from `p` to `goal`.
fn manhattan(p: (i32, i32), goal: (i32, i32)) -> (d: i32)
    requires
        abs_int(p.0 - goal.0) + abs_int(p.1 - goal.1) <= i32::MAX,
    ensures
        d == abs_int(p.0 - goal.0) + abs_int(p.1 - goal.1),
{
    let dx = if p.0 >= goal.0 { p.0 - goal.0 } else { goal.0 - p.0 };
    let dy = if p.1 >= goal.1 { p.1 - goal.1 } else { goal.1 - p.1 };
    dx + dy
}

/// The state of one search: best known costs, the tile each was reached from, and the
/// open list of `(estimate, tile)` entries still to expand.
///
/// Costs, parents and parent flags are arrays indexed by a tile's cell (`row * 60 + col`).
/// The world has a fixed 3000 cells, so such an array is a total map over every tile the
/// search can reach: it needs no hashing, and the proofs read its contents as a sequence.
/// The open list is a plain list scanned for its smallest estimate.
struct Search {
    g: Vec<i32>,
    parent: Vec<(i32, i32)>,
    has_parent: Vec<bool>,
    open: Vec<(i32, (i32, i32))>,
}

impl Search {
    spec fn measure(self) -> int {
        self.open@.len() + 9 * weight_sum(self.g@)
    }

    /// The search state apart from its open list.
    spec fn base(self, w: Seq<Vec<TileKind>>, start: (i32, i32), goal: (i32, i32)) -> bool {
        let gs = self.g@;
        &&& grid_wf(w)
        &&& open_tile(w, goal)
        &&& start_fits(start, goal)
        &&& gs.len() == 3000
        &&& self.parent@.len() == 3000
        &&& self.has_parent@.len() == 3000
        &&& in_world(start) ==> g_at(gs, start) == 0 && !hp_at(self.has_parent@, start)
        &&& forall|i: int| 0 <= i < 3000 ==> #[trigger] gs[i] >= 0
        &&& forall|p: (i32, i32)|
            in_world(p) && #[trigger] g_at(gs, p) < i32::MAX && p != start ==> hp_at(
                self.has_parent@,
                p,
            )
        &&& forall|p: (i32, i32)|
            in_world(p) && #[trigger] hp_at(self.has_parent@, p) ==> {
                let q = par_at(self.parent@, p);
                &&& g_at(gs, p) < i32::MAX
                &&& reached(gs, start, q)
                &&& gval(gs, q) + step_cost(q, p) <= g_at(gs, p)
                &&& step_ok(w, q, p)
            }
        &&& forall|i: int|
            0 <= i < 3000 && #[trigger] gs[i] < i32::MAX ==> gs[i] <= 14 * (count_below(
                gs,
                gs[i] as int,
            ) + 1)
    }

    spec fn inv(self, w: Seq<Vec<TileKind>>, start: (i32, i32), goal: (i32, i32)) -> bool {
        &&& self.base(w, start, goal)
        &&& forall|k: int|
            0 <= k < self.open@.len() ==> reached(self.g@, start, (#[trigger] self.open@[k]).1)
        &&& reached(self.g@, start, goal) ==> fresh(self.open@, self.g@, goal, goal)
        &&& forall|k: int|
            0 <= k < self.open@.len() && (#[trigger] self.open@[k]).1 == goal ==> self.open@[k].0 >= gval(self.g@, goal)
    }

    /// Every reached tile other than `x` is still to be expanded with its known cost, or
    /// has been.
    spec fn covered_except(self, w: Seq<Vec<TileKind>>, start: (i32, i32), goal: (i32, i32), x: (i32, i32)) -> bool {
        forall|p: (i32, i32)|
            #[trigger] reached(self.g@, start, p) && p != x ==> fresh(self.open@, self.g@, goal, p) || settled(
                w,
                self.g@,
                start,
                p,
            )
    }

    spec fn covered(self, w: Seq<Vec<TileKind>>, start: (i32, i32), goal: (i32, i32)) -> bool {
        forall|p: (i32, i32)|
            #[trigger] reached(self.g@, start, p) ==> fresh(self.open@, self.g@, goal, p) || settled(
                w,
                self.g@,
                start,
                p,
            )
    }

    proof fn lemma_cost_bound(self, w: Seq<Vec<TileKind>>, start: (i32, i32), goal: (i32, i32), i: int)
        requires
            self.base(w, start, goal),
            0 <= i < 3000,
            self.g@[i] < i32::MAX,
        ensures
            self.g@[i] <= 42014,
    {
        lemma_count_bound(self.g@, self.g@[i] as int);
    }

    fn new(start: (i32, i32), goal: (i32, i32), Ghost(w): Ghost<Seq<Vec<TileKind>>>) -> (s: Search)
        requires
            grid_wf(w),
            open_tile(w, goal),
            start_fits(start, goal),
        ensures
            s.inv(w, start, goal),
            s.covered(w, start, goal),
    {
        let mut g: Vec<i32> = Vec::new();
        let mut parent: Vec<(i32, i32)> = Vec::new();
        let mut has_parent: Vec<bool> = Vec::new();
        let mut i: usize = 0;
        while i < WORLD_CELLS
            invariant
                i <= 3000,
                g@.len() == i,
                parent@.len() == i,
                has_parent@.len() == i,
                forall|j: int| 0 <= j < i ==> g@[j] == i32::MAX && !has_parent@[j],
            decreases 3000 - i,
        {
            g.push(i32::MAX);
            parent.push((0, 0));
            has_parent.push(false);
            i = i + 1;
        }
        if 0 <= start.0 && start.0 < WORLD_W && 0 <= start.1 && start.1 < WORLD_H {
            let si = (start.1 * 60 + start.0) as usize;
            g.set(si, 0);
        }
        let h = manhattan(start, goal);
        let mut open: Vec<(i32, (i32, i32))> = Vec::new();
        open.push((h, start));
        let s = Search { g, parent, has_parent, open };
        proof {
            assert(s.open@[0].1 == start);
            assert forall|p: (i32, i32)| #[trigger] reached(s.g@, start, p) implies p == start by {
                if p != start && in_world(p) {
                    lemma_cell(p, start);
                }
            }
            assert forall|i: int| 0 <= i < 3000 && #[trigger] s.g@[i] < i32::MAX implies s.g@[i]
                <= 14 * (count_below(s.g@, s.g@[i] as int) + 1) by {}
            assert forall|p: (i32, i32)|
                in_world(p) && #[trigger] hp_at(s.has_parent@, p) implies false by {
                lemma_cell(p, p);
            }
            assert forall|p: (i32, i32)|
                in_world(p) && #[trigger] g_at(s.g@, p) < i32::MAX && p != start implies hp_at(
                s.has_parent@,
                p,
            ) by {
                lemma_cell(p, p);
                if in_world(start) {
                    lemma_cell(p, start);
                }
            }
            if in_world(start) {
                lemma_cell(start, start);
            }
            assert(gval(s.g@, start) == 0);
            assert(s.open@[0].0 <= gval(s.g@, start) + 10 * manh(start, goal));
            assert(fresh(s.open@, s.g@, goal, start));
            if start == goal {
                lemma_cell(goal, goal);
            }
        }
        s
    }

    /// Index of an open entry with the smallest estimate.
    fn min_index(&self) -> (k: usize)
        requires
            self.open@.len() > 0,
        ensures
            k < self.open@.len(),
            forall|j: int| 0 <= j < self.open@.len() ==> self.open@[k as int].0 <= (
            #[trigger] self.open@[j]).0,
    {
        let mut best: usize = 0;
        let mut j: usize = 1;
        while j < self.open.len()
            invariant
                1 <= j <= self.open@.len(),
                best < j,
                forall|i: int| 0 <= i < j ==> self.open@[best as int].0 <= (#[trigger] self.open@[i]).0,
            decreases self.open@.len() - j,
        {
            if self.open[j].0 < self.open[best].0 {
                best = j;
            }
            j = j + 1;
        }
        best
    }

    /// Offers `next`, one move from the expanded tile `pos` of cost `gp`, a cost of `gp + cost`.
    #[verifier::rlimit(40)]
    #[verifier::spinoff_prover]
    fn relax(
        &mut self,
        pos: (i32, i32),
        gp: i32,
        next: (i32, i32),
        cost: i32,
        start: (i32, i32),
        goal: (i32, i32),
        Ghost(w): Ghost<Seq<Vec<TileKind>>>,
    )
        requires
            old(self).inv(w, start, goal),
            old(self).covered_except(w, start, goal, pos),
            reached(old(self).g@, start, pos),
            gp == gval(old(self).g@, pos),
            step_ok(w, pos, next),
            cost == (if next.0 != pos.0 && next.1 != pos.1 { 14int } else { 10int }),
        ensures
            final(self).inv(w, start, goal),
            final(self).covered_except(w, start, goal, pos),
            reached(final(self).g@, start, next),
            gval(final(self).g@, pos) == gp,
            gval(final(self).g@, next) <= gp + cost,
            forall|p: (i32, i32)| #[trigger]
                reached(old(self).g@, start, p) ==> reached(final(self).g@, start, p),
            forall|p: (i32, i32)| #[trigger] gval(final(self).g@, p) <= gval(old(self).g@, p),
            final(self).measure() <= old(self).measure(),
    {
        let ghost old_s = *self;
        let ghost gs = self.g@;
        proof {
            if in_world(pos) {
                lemma_cell(pos, pos);
                old_s.lemma_cost_bound(w, start, goal, cell(pos));
            }
            lemma_cell(next, next);
            if in_world(pos) {
                lemma_cell(pos, next);
            }
        }
        let ni = (next.1 * 60 + next.0) as usize;
        let new_g = gp + cost;
        if new_g < self.g[ni] {
            self.g.set(ni, new_g);
            self.parent.set(ni, pos);
            self.has_parent.set(ni, true);
            let h = manhattan(next, goal);
            let f = new_g + 10 * h;
            self.open.push((f, next));
            proof {
                let ng = self.g@;
                assert(ng == gs.update(ni as int, new_g));
                assert(gval(ng, next) == new_g);
                // Only the cost of `next` changed, and it fell.
                assert forall|p: (i32, i32)| #[trigger] gval(ng, p) <= gval(gs, p) && (p != next ==> gval(ng, p) == gval(gs, p)) by {
                    if in_world(p) {
                        lemma_cell(p, next);
                    }
                }
                // Costs only fall, so the reached set grows.
                assert forall|p: (i32, i32)| #[trigger]
                    reached(gs, start, p) implies reached(ng, start, p) by {
                    if in_world(p) {
                        lemma_cell(p, next);
                    }
                }
                if in_world(start) {
                    lemma_cell(start, next);
                }
                // The count of cheaper tiles bounds every cost.
                assert forall|i: int| 0 <= i < 3000 && #[trigger] ng[i] < i32::MAX implies ng[i]
                    <= 14 * (count_below(ng, ng[i] as int) + 1) by {
                    if i == ni as int {
                        if in_world(pos) {
                            lemma_count_lt(gs, gp as int, ng, new_g as int, cell(pos));
                        }
                    } else {
                        lemma_count_le(gs, gs[i] as int, ng, gs[i] as int);
                    }
                }
                assert forall|p: (i32, i32)|
                    in_world(p) && #[trigger] g_at(ng, p) < i32::MAX && p != start implies hp_at(
                    self.has_parent@,
                    p,
                ) by {
                    lemma_cell(p, next);
                    assert(g_at(ng, p) == g_at(gs, p) || p == next);
                }
                assert forall|p: (i32, i32)|
                    in_world(p) && #[trigger] hp_at(self.has_parent@, p) implies {
                    let q = par_at(self.parent@, p);
                    &&& g_at(ng, p) < i32::MAX
                    &&& reached(ng, start, q)
                    &&& gval(ng, q) + step_cost(q, p) <= g_at(ng, p)
                    &&& step_ok(w, q, p)
                } by {
                    lemma_cell(p, next);
                    if p != next {
                        assert(hp_at(old_s.has_parent@, p));
                        let q = par_at(old_s.parent@, p);
                        assert(reached(gs, start, q));
                        assert(gval(ng, q) <= gval(gs, q));
                        if in_world(q) {
                            lemma_cell(q, next);
                        }
                    } else {
                        assert(gval(ng, pos) == gp);
                    }
                }
                assert forall|k: int| 0 <= k < self.open@.len() implies reached(
                    ng,
                    start,
                    (#[trigger] self.open@[k]).1,
                ) by {
                    if k < old_s.open@.len() {
                        assert(self.open@[k] == old_s.open@[k]);
                        assert(reached(gs, start, old_s.open@[k].1));
                    }
                }
                assert(f == gval(ng, next) + 10 * manh(next, goal));
                if reached(ng, start, goal) {
                    if goal == next {
                        lemma_fresh_after_push(old_s.open@, gs, ng, goal, (f, next), goal);
                    } else {
                        lemma_cell(goal, next);
                        assert(reached(gs, start, goal));
                        assert(gval(ng, goal) == gval(gs, goal));
                        lemma_fresh_after_push(old_s.open@, gs, ng, goal, (f, next), goal);
                    }
                }
                assert forall|k: int| 0 <= k < self.open@.len() && (#[trigger] self.open@[k]).1 == goal implies self.open@[k].0 >= gval(ng, goal) by {
                    if k < old_s.open@.len() {
                        assert(self.open@[k] == old_s.open@[k]);
                        assert(gval(ng, goal) <= gval(gs, goal));
                    } else {
                        assert(manh(goal, goal) == 0);
                    }
                }
                assert forall|p: (i32, i32)|
                    #[trigger] reached(ng, start, p) && p != pos implies fresh(self.open@, ng, goal, p)
                        || settled(w, ng, start, p) by {
                    if p == next {
                        lemma_fresh_after_push(old_s.open@, gs, ng, goal, (f, next), p);
                    } else {
                        if in_world(p) {
                            lemma_cell(p, next);
                        }
                        assert(reached(gs, start, p));
                        assert(gval(ng, p) == gval(gs, p));
                        if fresh(old_s.open@, gs, goal, p) {
                            lemma_fresh_after_push(old_s.open@, gs, ng, goal, (f, next), p);
                        } else {
                            assert(settled(w, gs, start, p));
                            assert forall|q: (i32, i32)| #[trigger] step_ok(w, p, q) implies reached(
                                ng,
                                start,
                                q,
                            ) && gval(ng, q) <= gval(ng, p) + step_cost(p, q) by {
                                assert(reached(gs, start, q));
                                assert(gval(ng, q) <= gval(gs, q));
                            }
                        }
                    }
                }
                assert forall|i: int| 0 <= i < 3000 implies #[trigger] ng[i] >= 0 by {}
                lemma_weight_sum_update(gs, ni as int, new_g);
                lemma_count_bound(ng, new_g as int);
            }
        }
    }

    fn has_parent_at(&self, p: (i32, i32)) -> (b: bool)
        requires
            self.has_parent@.len() == 3000,
        ensures
            b == (in_world(p) && hp_at(self.has_parent@, p)),
    {
        if 0 <= p.0 && p.0 < WORLD_W && 0 <= p.1 && p.1 < WORLD_H {
            self.has_parent[(p.1 * 60 + p.0) as usize]
        } else {
            false
        }
    }

    /// Follows the parents back from the goal and keeps every other tile of the route, and
    /// the goal.
    #[verifier::rlimit(40)]
    #[verifier::spinoff_prover]
    fn route(&self, start: (i32, i32), goal: (i32, i32), Ghost(w): Ghost<Seq<Vec<TileKind>>>) -> (r: Vec<(i32, i32)>)
        requires
            self.base(w, start, goal),
            reached(self.g@, start, goal),
        ensures
            exists|p: Seq<(i32, i32)>| valid_route(w, p, start, goal) && no_repeats(p) && r@ == thinned(p)
                && route_cost(p) <= gval(self.g@, goal),
            r@.len() >= 1,
            r@[0] == start,
            r@.last() == goal,
    {
        let mut back: Vec<(i32, i32)> = Vec::new();
        back.push(goal);
        let mut cur = goal;
        proof {
            if in_world(goal) {
                lemma_cell(goal, goal);
            }
            assert(route_cost(reversed(back@)) == 0);
        }
        while self.has_parent_at(cur)
            invariant
                self.base(w, start, goal),
                back@.len() >= 1,
                back@[0] == goal,
                back@.last() == cur,
                reached(self.g@, start, cur),
                forall|i: int| 0 <= i < back@.len() - 1 ==> step_ok(w, #[trigger] back@[i + 1], back@[i]),
                forall|i: int, j: int|
                    0 <= i < j < back@.len() ==> gval(self.g@, #[trigger] back@[j]) < gval(self.g@, #[trigger] back@[i]),
                route_cost(reversed(back@)) + gval(self.g@, cur) <= gval(self.g@, goal),
            decreases gval(self.g@, cur),
        {
            proof {
                lemma_cell(cur, cur);
            }
            let prev = self.parent[(cur.1 * 60 + cur.0) as usize];
            proof {
                assert(hp_at(self.has_parent@, cur));
                assert(prev == par_at(self.parent@, cur));
                if in_world(prev) {
                    lemma_cell(prev, prev);
                    assert(self.g@[cell(prev)] >= 0);
                }
            }
            let ghost b0 = back@;
            back.push(prev);
            proof {
                assert(gval(self.g@, prev) + step_cost(prev, cur) <= gval(self.g@, cur));
                lemma_back_push(self.g@, b0, prev);
            }
            cur = prev;
        }
        proof {
            if in_world(cur) {
                lemma_cell(cur, cur);
            }
            assert(cur == start);
        }
        let n = back.len();
        let ghost p = Seq::new(n as nat, |i: int| back@[n - 1 - i]);
        let mut out: Vec<(i32, i32)> = Vec::new();
        let mut i: usize = 0;
        while i < n
            invariant
                n == back@.len(),
                i <= n,
                p == Seq::new(n as nat, |i: int| back@[n - 1 - i]),
                out@.len() == (i + 1) / 2,
                forall|j: int| 0 <= j < out@.len() ==> out@[j] == p[2 * j],
            decreases n - i,
        {
            if i % 2 == 0 {
                out.push(back[n - 1 - i]);
            }
            i = i + 1;
        }
        proof {
            assert(out@ =~= every_other(p));
            lemma_reversed_route(w, self.g@, back@, start, goal);
            assert(p == reversed(back@));
        }
        if n % 2 == 0 {
            out.push(goal);
        }
        proof {
            assert(out@ =~= thinned(p));
            lemma_thinned_ends(p);
        }
        out
    }
}

/// A* search for a walking route from `start` to `goal` on the world grid. Moves go to
/// the eight neighbouring tiles, never onto a blocked tile and never diagonally past a
/// blocked corner; straight moves cost 10, diagonal ones 14, and the estimate to the goal
/// is ten times the Manhattan distance. The route found is returned with every other tile
/// kept (the start, the third tile, ...) and the goal always last, for smoother walking.
///
/// There is a result exactly when the goal is an open tile that some route reaches; the
/// result is then the thinning of such a route, one on which no tile occurs twice.
///
/// The estimate overshoots on diagonals (a diagonal move costs 14 but shortens the
/// Manhattan distance by 2, which the estimate counts as 20), so the route found need not
/// be a cheapest one. Seven times the Manhattan distance never overshoots, and the
/// estimate is ten sevenths of that, so the route found costs at most ten sevenths of the
/// cheapest route.
#[verifier::rlimit(60)]
#[verifier::spinoff_prover]
pub fn astar_path(office: &OfficeMap, start: (i32, i32), goal: (i32, i32)) -> (res: Option<
    Vec<(i32, i32)>,
>)
    requires
        office.wf(),
        open_tile(office.world@, goal) ==> start_fits(start, goal),
    ensures
        res is Some <==> (open_tile(office.world@, goal) && reachable(office.world@, start, goal)),
        res matches Some(r) ==> exists|p: Seq<(i32, i32)>| {
            &&& valid_route(office.world@, p, start, goal)
            &&& no_repeats(p)
            &&& r@ == thinned(p)
            &&& forall|q: Seq<(i32, i32)>| #[trigger] valid_route(office.world@, q, start, goal)
                ==> 7 * route_cost(p) <= 10 * route_cost(q)
        },
        res matches Some(r) ==> r@.len() >= 1 && r@[0] == start && r@.last() == goal,
{
    let ghost w = office.world@;
    if goal.0 < 0 || goal.1 < 0 || goal.0 >= WORLD_W || goal.1 >= WORLD_H {
        return None;
    }
    if !office.world[goal.1 as usize][goal.0 as usize].is_walkable() {
        return None;
    }
    let mut s = Search::new(start, goal, Ghost(w));
    loop
        invariant
            w == office.world@,
            s.inv(w, start, goal),
            s.covered(w, start, goal),
        decreases s.measure(),
    {
        proof {
            lemma_weight_sum_nonneg(s.g@);
        }
        if s.open.len() == 0 {
            proof {
                assert(!reached(s.g@, start, goal));
                if reachable(w, start, goal) {
                    let p = choose|p: Seq<(i32, i32)>| valid_route(w, p, start, goal);
                    assert forall|q: (i32, i32)| #[trigger] reached(s.g@, start, q) implies closed(
                        w,
                        s.g@,
                        start,
                        q,
                    ) by {
                        assert(!fresh(s.open@, s.g@, goal, q));
                        assert(settled(w, s.g@, start, q));
                    }
                    lemma_route_reached(w, s.g@, start, goal, p, p.len() - 1);
                }
            }
            return None;
        }
        let ghost m0 = s.measure();
        let ghost s0 = s;
        let k = s.min_index();
        let (_, pos) = s.open.remove(k);
        proof {
            assert(s0.open@[k as int].1 == pos);
            assert(s.open@ == s0.open@.remove(k as int));
            assert(reached(s.g@, start, pos));
        }
        if pos.0 == goal.0 && pos.1 == goal.1 {
            let r = s.route(start, goal, Ghost(w));
            proof {
                if in_world(start) {
                    lemma_cell(start, start);
                }
                assert(gval(s.g@, start) == 0);
                assert(fresh(s0.open@, s0.g@, goal, goal));
                lemma_pop_bound_all(w, s0.g@, s0.open@, start, goal, k as int);
                let p = choose|p: Seq<(i32, i32)>| valid_route(w, p, start, goal) && no_repeats(p) && r@ == thinned(p)
                    && route_cost(p) <= gval(s.g@, goal);
                assert(forall|q: Seq<(i32, i32)>| #[trigger] valid_route(w, q, start, goal) ==> 7 * route_cost(p) <= 10
                    * route_cost(q));
            }
            return Some(r);
        }
        proof {
            assert forall|k2: int| 0 <= k2 < s.open@.len() implies reached(
                s.g@,
                start,
                (#[trigger] s.open@[k2]).1,
            ) by {
                if k2 < k {
                    assert(s.open@[k2] == s0.open@[k2]);
                } else {
                    assert(s.open@[k2] == s0.open@[k2 + 1]);
                }
            }
            assert forall|k2: int| 0 <= k2 < s.open@.len() && (#[trigger] s.open@[k2]).1 == goal implies s.open@[k2].0
                >= gval(s.g@, goal) by {
                if k2 < k {
                    assert(s.open@[k2] == s0.open@[k2]);
                } else {
                    assert(s.open@[k2] == s0.open@[k2 + 1]);
                }
            }
            if reached(s.g@, start, goal) {
                lemma_fresh_after_remove(s0.open@, s.g@, goal, k as int, goal);
            }
            assert forall|p: (i32, i32)|
                #[trigger] reached(s.g@, start, p) && p != pos implies fresh(s.open@, s.g@, goal, p) || settled(
                    w,
                    s.g@,
                    start,
                    p,
                ) by {
                if fresh(s0.open@, s.g@, goal, p) {
                    lemma_fresh_after_remove(s0.open@, s.g@, goal, k as int, p);
                }
            }
            if in_world(pos) {
                lemma_cell(pos, pos);
            }
        }
        let gp: i32 = if 0 <= pos.0 && pos.0 < WORLD_W && 0 <= pos.1 && pos.1 < WORLD_H {
            s.g[(pos.1 * 60 + pos.0) as usize]
        } else {
            0
        };
        proof {
            if in_world(pos) {
                s.lemma_cost_bound(w, start, goal, cell(pos));
            }
        }
        let mut d: usize = 0;
        while d < 8
            invariant
                w == office.world@,
                d <= 8,
                s.inv(w, start, goal),
                s.covered_except(w, start, goal, pos),
                reached(s.g@, start, pos),
                gp == gval(s.g@, pos),
                0 <= gp <= 42014,
                pos == start || in_world(pos),
                forall|q: (i32, i32)|
                    #[trigger] step_ok(w, pos, q) && dir_index(q.0 - pos.0, q.1 - pos.1) < d
                        ==> reached(s.g@, start, q) && gval(s.g@, q) <= gp + step_cost(pos, q),
                s.measure() <= m0 - 1,
            decreases 8 - d,
        {
            let (dx, dy) = dir(d);
            let next = (pos.0 + dx, pos.1 + dy);
            let diagonal = dx != 0 && dy != 0;
            let ok = office.is_walkable_tile(next.0, next.1) && (!diagonal || (
            office.is_walkable_tile(pos.0 + dx, pos.1) && office.is_walkable_tile(
                pos.0,
                pos.1 + dy,
            )));
            let ghost sb = s;
            if ok {
                let cost: i32 = if diagonal { 14 } else { 10 };
                s.relax(pos, gp, next, cost, start, goal, Ghost(w));
            }
            proof {
                assert forall|q: (i32, i32)|
                    #[trigger] step_ok(w, pos, q) && dir_index(q.0 - pos.0, q.1 - pos.1) < d + 1
                        implies reached(s.g@, start, q) && gval(s.g@, q) <= gp + step_cost(pos, q) by {
                    if dir_index(q.0 - pos.0, q.1 - pos.1) < d {
                        assert(reached(sb.g@, start, q));
                        assert(gval(s.g@, q) <= gval(sb.g@, q));
                    } else {
                        assert(q == next);
                    }
                }
            }
            d = d + 1;
        }
        proof {
            assert forall|q: (i32, i32)| #[trigger] step_ok(w, pos, q) implies reached(s.g@, start, q) && gval(s.g@, q)
                <= gval(s.g@, pos) + step_cost(pos, q) by {
                assert(dir_index(q.0 - pos.0, q.1 - pos.1) < 8);
            }
            assert(settled(w, s.g@, start, pos));
            lemma_weight_sum_nonneg(s.g@);
        }
    }
}

} // verus!
