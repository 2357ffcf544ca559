//! A* search support: passability, walks, and the invariants of the search
//! tree and queue with the lemmas that carry them through a search.
use vstd::prelude::*;

use crate::agent::PlanningAgent;
use crate::environment::{CellType, EnvironmentView};
use crate::{manhattan, DoorKeyType, Position};

verus! {

pub open spec fn on_grid(view: &EnvironmentView, p: Position) -> bool {
    view.terrain_grid.in_bounds(p.x as int, p.y as int)
}

/// Whether a planner holding keys `keys` may step onto `p`: inside the grid,
/// not occupied, not a wall, and not a locked door whose key it lacks.
pub open spec fn passable(view: &EnvironmentView, keys: Seq<DoorKeyType>, p: Position) -> bool {
    &&& view.terrain_grid.in_bounds(p.x as int, p.y as int)
    &&& view.agent_location_grid.spec_at(p.x as int, p.y as int).is_none()
    &&& match view.terrain_grid.spec_at(p.x as int, p.y as int) {
        CellType::Wall => false,
        CellType::Door { open: false, door_type: Some(k) } => keys.contains(k),
        _ => true,
    }
}

pub open spec fn adjacent(a: Position, b: Position) -> bool {
    manhattan(a, b) == 1
}

/// `path` is a walk: each position is adjacent to the one before it and
/// passable (the first position is where the walk starts and is not checked).
pub open spec fn is_walk(view: &EnvironmentView, keys: Seq<DoorKeyType>, path: Seq<Position>) -> bool {
    &&& path.len() >= 1
    &&& forall|i: int| 1 <= i < path.len() ==> adjacent(path[i - 1], #[trigger] path[i]) && passable(view, keys, path[i])
}

/// Some walk leads from `start` to `goal`. A goal behind a locked door whose
/// key is not held, with no other way round, is not reachable.
pub open spec fn reachable(view: &EnvironmentView, keys: Seq<DoorKeyType>, start: Position, goal: Position) -> bool {
    exists|path: Seq<Position>| #[trigger] is_walk(view, keys, path) && path[0] == start && path.last() == goal
}

/// The position of row-major index `i` in a grid of width `w`.
pub open spec fn pos_of(w: nat, i: int) -> Position {
    Position { x: (i % w as int) as usize, y: (i / w as int) as usize }
}

pub(crate) proof fn lemma_pos_of(w: nat, h: nat, p: Position)
    requires
        p.x < w,
        p.y < h,
    ensures
        pos_of(w, p.y * w + p.x) == p,
        0 <= p.y * w + p.x < w * h,
{
    let x = p.x as int;
    let y = p.y as int;
    let wi = w as int;
    assert(y * wi == wi * y) by (nonlinear_arith);
    vstd::arithmetic::div_mod::lemma_fundamental_div_mod_converse(y * wi + x, wi, y, x);
    assert(0 <= y * wi + x < wi * h) by (nonlinear_arith)
        requires
            0 <= x < wi,
            0 <= y < h,
    ;
}

pub open spec fn count_true(s: Seq<bool>) -> nat
    decreases s.len(),
{
    if s.len() == 0 {
        0
    } else {
        count_true(s.drop_last()) + if s.last() { 1nat } else { 0nat }
    }
}

pub(crate) proof fn lemma_count_true_bound(s: Seq<bool>)
    ensures
        count_true(s) <= s.len(),
    decreases s.len(),
{
    if s.len() > 0 {
        lemma_count_true_bound(s.drop_last());
    }
}

pub(crate) proof fn lemma_count_zero(s: Seq<bool>)
    requires
        forall|i: int| 0 <= i < s.len() ==> !s[i],
    ensures
        count_true(s) == 0,
    decreases s.len(),
{
    if s.len() > 0 {
        lemma_count_zero(s.drop_last());
    }
}

pub(crate) proof fn lemma_count_true_set(s: Seq<bool>, i: int)
    requires
        0 <= i < s.len(),
        !s[i],
    ensures
        count_true(s.update(i, true)) == count_true(s) + 1,
    decreases s.len(),
{
    if i == s.len() - 1 {
        assert(s.update(i, true).drop_last() =~= s.drop_last());
    } else {
        lemma_count_true_set(s.drop_last(), i);
        assert(s.update(i, true).drop_last() =~= s.drop_last().update(i, true));
    }
}

/// The search tree of A*: the start costs 0, and every other reached cell
/// records a parent that is adjacent, cheaper and reached, and is passable.
pub open spec fn search_tree(
    view: &EnvironmentView,
    keys: Seq<DoorKeyType>,
    wn: nat,
    n: nat,
    si: int,
    cost: Seq<Option<usize>>,
    parent: Seq<usize>,
) -> bool {
    &&& cost.len() == n
    &&& parent.len() == n
    &&& 0 <= si < n
    &&& cost[si] == Some(0usize)
    &&& forall|j: int|
        0 <= j < n && j != si && (#[trigger] cost[j]).is_some() ==> {
            &&& parent[j] < n
            &&& cost[parent[j] as int].is_some()
            &&& cost[parent[j] as int].unwrap() < cost[j].unwrap()
            &&& adjacent(pos_of(wn, parent[j] as int), pos_of(wn, j))
            &&& passable(view, keys, pos_of(wn, j))
        }
}

pub open spec fn costs_at_most(cost: Seq<Option<usize>>, bound: nat) -> bool {
    forall|j: int| 0 <= j < cost.len() && (#[trigger] cost[j]).is_some() ==> cost[j].unwrap() <= bound
}

/// `a + b`, or `usize::MAX` when the sum does not fit.
pub open spec fn sat_add(a: int, b: int) -> usize {
    if a + b > usize::MAX { usize::MAX } else { (a + b) as usize }
}

/// Every reached cell costs at least its distance from the start.
pub open spec fn costs_above(cost: Seq<Option<usize>>, wn: nat, start: Position) -> bool {
    forall|j: int| 0 <= j < cost.len() && (#[trigger] cost[j]).is_some() ==> cost[j].unwrap() >= manhattan(start, pos_of(wn, j))
}

/// A queued entry: an in-bounds, reached cell whose priority is at least its
/// current cost plus its distance to the goal (unless it saturated) and at
/// least the length of the shortest route through it.
pub open spec fn entry_ok(view: &EnvironmentView, wn: nat, start: Position, goal: Position, cost: Seq<Option<usize>>, e: (usize, Position)) -> bool {
    &&& view.terrain_grid.in_bounds(e.1.x as int, e.1.y as int)
    &&& cost[e.1.y * wn + e.1.x].is_some()
    &&& (e.0 == usize::MAX || cost[e.1.y * wn + e.1.x].unwrap() + manhattan(e.1, goal) <= e.0)
    &&& e.0 >= sat_add(manhattan(start, e.1), manhattan(e.1, goal))
}

#[verifier::opaque]
pub open spec fn entries_ok(view: &EnvironmentView, wn: nat, start: Position, goal: Position, cost: Seq<Option<usize>>, frontier: Seq<(usize, Position)>) -> bool {
    forall|e: int| 0 <= e < frontier.len() ==> entry_ok(view, wn, start, goal, cost, #[trigger] frontier[e])
}

/// `p` is queued with the priority of cost `c`.
pub open spec fn queued_at(frontier: Seq<(usize, Position)>, p: Position, c: int, goal: Position) -> bool {
    exists|e: int| 0 <= e < frontier.len() && #[trigger] frontier[e] == (sat_add(c, manhattan(p, goal)), p)
}

/// `a` comes before `b` in row-major order.
pub open spec fn row_before(a: Position, b: Position) -> bool {
    a.y < b.y || (a.y == b.y && a.x < b.x)
}

/// The positions come in strictly increasing row-major order, so each at most once.
pub open spec fn row_major_sorted(s: Seq<Position>) -> bool {
    forall|i: int, j: int| 0 <= i < j < s.len() ==> row_before(#[trigger] s[i], #[trigger] s[j])
}

/// Every in-bounds cell but the start is passable.
pub open spec fn open_grid(view: &EnvironmentView, keys: Seq<DoorKeyType>, start: Position) -> bool {
    forall|p: Position| on_grid(view, p) && p != start ==> #[trigger] passable(view, keys, p)
}

/// `c` lies on some shortest route from `s` to `g`.
pub open spec fn in_box(s: Position, g: Position, c: Position) -> bool {
    manhattan(s, c) + manhattan(c, g) == manhattan(s, g)
}

/// The neighbour of `c` one step closer to `g`, moving along x first.
pub open spec fn toward(c: Position, g: Position) -> Position {
    if c.x < g.x {
        Position { x: (c.x + 1) as usize, y: c.y }
    } else if c.x > g.x {
        Position { x: (c.x - 1) as usize, y: c.y }
    } else if c.y < g.y {
        Position { x: c.x, y: (c.y + 1) as usize }
    } else {
        Position { x: c.x, y: (c.y - 1) as usize }
    }
}

/// Every expanded cell costs its distance from the start, lies on a shortest
/// route, and its step toward the goal is reached at its distance too.
#[verifier::opaque]
pub open spec fn expanded_ok(wn: nat, n: nat, start: Position, goal: Position, cost: Seq<Option<usize>>, closed: Seq<bool>) -> bool {
    forall|j: int|
        0 <= j < n && #[trigger] closed[j] ==> cost[j] == Some(manhattan(start, pos_of(wn, j)) as usize) && in_box(
            start,
            goal,
            pos_of(wn, j),
        ) && cost[toward(pos_of(wn, j), goal).y * wn + toward(pos_of(wn, j), goal).x] == Some(
            manhattan(start, toward(pos_of(wn, j), goal)) as usize,
        )
}

/// Every unexpanded cell on a shortest route that is reached at its distance is queued.
#[verifier::opaque]
pub open spec fn waiting_ok(
    wn: nat,
    n: nat,
    start: Position,
    goal: Position,
    cost: Seq<Option<usize>>,
    closed: Seq<bool>,
    frontier: Seq<(usize, Position)>,
) -> bool {
    forall|j: int|
        0 <= j < n && !closed[j] && in_box(start, goal, pos_of(wn, j)) && #[trigger] cost[j] == Some(
            manhattan(start, pos_of(wn, j)) as usize,
        ) ==> queued_at(frontier, pos_of(wn, j), manhattan(start, pos_of(wn, j)), goal)
}

pub(crate) proof fn lemma_triangle(a: Position, b: Position, c: Position)
    ensures
        manhattan(a, b) + manhattan(b, c) >= manhattan(a, c),
{
}

pub(crate) proof fn lemma_idx_pos_of(wn: nat, hn: nat, j: int)
    requires
        0 <= j < wn * hn,
        wn * hn <= usize::MAX,
    ensures
        pos_of(wn, j).y * wn + pos_of(wn, j).x == j,
        pos_of(wn, j).x < wn,
        pos_of(wn, j).y < hn,
{
    let w = wn as int;
    assert(w > 0) by (nonlinear_arith)
        requires
            0 <= j < w * hn,
    ;
    assert((j / w) * w + j % w == j && 0 <= j % w < w && 0 <= j / w < hn && w <= w * hn && hn <= w * hn) by (nonlinear_arith)
        requires
            w > 0,
            0 <= j < w * hn,
    ;
    assert(pos_of(wn, j).x == j % w);
    assert(pos_of(wn, j).y == j / w);
}

/// While the goal is not taken, some queued entry has priority at most the
/// start-to-goal distance: follow steps toward the goal from the start
/// through expanded cells until one that is not expanded.
pub(crate) proof fn lemma_cheap_entry(
    view: &EnvironmentView,
    keys: Seq<DoorKeyType>,
    wn: nat,
    hn: nat,
    start: Position,
    goal: Position,
    cost: Seq<Option<usize>>,
    closed: Seq<bool>,
    frontier: Seq<(usize, Position)>,
    c: Position,
)
    requires
        wn == view.terrain_grid.spec_width(),
        hn == view.terrain_grid.spec_height(),
        cost.len() == wn * hn,
        closed.len() == wn * hn,
        on_grid(view, c),
        on_grid(view, goal),
        in_box(start, goal, c),
        cost[c.y * wn + c.x] == Some(manhattan(start, c) as usize),
        !closed[goal.y * wn + goal.x],
        expanded_ok(wn, wn * hn, start, goal, cost, closed),
        waiting_ok(wn, wn * hn, start, goal, cost, closed, frontier),
        manhattan(start, goal) < usize::MAX,
    ensures
        exists|e: int| 0 <= e < frontier.len() && (#[trigger] frontier[e]).0 <= manhattan(start, goal),
    decreases manhattan(c, goal),
{
    reveal(expanded_ok);
    reveal(waiting_ok);
    let j = c.y * wn + c.x;
    lemma_pos_of(wn, hn, c);
    if !closed[j] {
        assert(queued_at(frontier, pos_of(wn, j), manhattan(start, pos_of(wn, j)), goal));
        let e = choose|e: int| 0 <= e < frontier.len() && #[trigger] frontier[e] == (
            sat_add(manhattan(start, c), manhattan(c, goal)),
            c,
        );
        assert(frontier[e].0 <= manhattan(start, goal));
    } else {
        if c == goal {
            lemma_pos_of(wn, hn, goal);
        }
        assert(c != goal);
        let t = toward(c, goal);
        assert(on_grid(view, t));
        assert(in_box(start, goal, t));
        lemma_cheap_entry(view, keys, wn, hn, start, goal, cost, closed, frontier, t);
    }
}

/// Dropping a popped entry of an expanded cell keeps every unexpanded,
/// exactly-costed cell on a shortest route queued.
pub(crate) proof fn lemma_requeue_after_pop(
    wn: nat,
    n: nat,
    hn: nat,
    start: Position,
    goal: Position,
    cost: Seq<Option<usize>>,
    closed: Seq<bool>,
    fr: Seq<(usize, Position)>,
    frontier: Seq<(usize, Position)>,
    m: int,
    ci: int,
)
    requires
        n == wn * hn,
        n <= usize::MAX,
        0 <= m < fr.len(),
        frontier == fr.remove(m),
        0 <= ci < n,
        closed.len() == n,
        closed[ci],
        fr[m].1 == pos_of(wn, ci),
        waiting_ok(wn, n, start, goal, cost, closed, fr),
    ensures
        waiting_ok(wn, n, start, goal, cost, closed, frontier),
{
    reveal(expanded_ok);
    reveal(waiting_ok);
    assert forall|j: int|
        0 <= j < n && !closed[j] && in_box(start, goal, pos_of(wn, j)) && #[trigger] cost[j] == Some(
            manhattan(start, pos_of(wn, j)) as usize,
        ) implies queued_at(frontier, pos_of(wn, j), manhattan(start, pos_of(wn, j)), goal) by {
        let p = pos_of(wn, j);
        let e = choose|e: int| 0 <= e < fr.len() && #[trigger] fr[e] == (sat_add(manhattan(start, p), manhattan(p, goal)), p);
        lemma_idx_pos_of(wn, hn, j);
        lemma_idx_pos_of(wn, hn, ci);
        assert(e != m);
        let e2 = if e < m { e } else { e - 1 };
        assert(frontier[e2] == fr[e]);
    }
}

/// After expanding cell `ci` and relaxing its neighbours, the expanded cells
/// still cost their distance from the start, lie on shortest routes and have
/// their step toward the goal exactly costed, and unexpanded such cells stay queued.
#[verifier::rlimit(100)]
pub(crate) proof fn lemma_after_expand(
    view: &EnvironmentView,
    keys: Seq<DoorKeyType>,
    wn: nat,
    n: nat,
    hn: nat,
    start: Position,
    goal: Position,
    cost0: Seq<Option<usize>>,
    cost: Seq<Option<usize>>,
    cl0: Seq<bool>,
    closed: Seq<bool>,
    fr: Seq<(usize, Position)>,
    fr1: Seq<(usize, Position)>,
    frontier: Seq<(usize, Position)>,
    m: int,
    ci: int,
    neighbors: Seq<Position>,
)
    requires
        view.wf(),
        wn == view.terrain_grid.spec_width(),
        hn == view.terrain_grid.spec_height(),
        n == wn * hn,
        n <= usize::MAX,
        !cl0[goal.y * wn + goal.x],
        open_grid(view, keys, start),
        on_grid(view, goal),
        on_grid(view, start),
        manhattan(start, goal) < usize::MAX,
        cost0.len() == n,
        cost.len() == n,
        cl0.len() == n,
        0 <= ci < n,
        closed == cl0.update(ci, true),
        pos_of(wn, ci) != goal,
        0 <= m < fr.len(),
        fr1 == fr.remove(m),
        fr[m].1 == pos_of(wn, ci),
        fr[m].0 <= manhattan(start, goal),
        entry_ok(view, wn, start, goal, cost0, fr[m]),
        costs_above(cost0, wn, start),
        costs_above(cost, wn, start),
        forall|j: int|
            0 <= j < n && (#[trigger] cost0[j]).is_some() ==> cost[j].is_some() && cost[j].unwrap() <= cost0[j].unwrap(),
        forall|q: Position|
            #[trigger] neighbors.contains(q) ==> cost[q.y * wn + q.x].is_some() && cost[q.y * wn + q.x].unwrap() <= cost0[ci].unwrap()
                + 1,
        forall|q: Position| neighbors.contains(q) <==> adjacent(pos_of(wn, ci), q) && passable(view, keys, q),
        frontier.len() >= fr1.len(),
        forall|e: int| 0 <= e < fr1.len() ==> #[trigger] frontier[e] == fr1[e],
        forall|j: int|
            0 <= j < n && (#[trigger] cost[j]).is_some() && cost[j] != cost0[j] ==> queued_at(frontier, pos_of(wn, j), cost[j].unwrap() as int, goal),
        expanded_ok(wn, n, start, goal, cost0, cl0),
        waiting_ok(wn, n, start, goal, cost0, cl0, fr),
    ensures
        expanded_ok(wn, n, start, goal, cost, closed),
        waiting_ok(wn, n, start, goal, cost, closed, frontier),
{
    reveal(expanded_ok);
    reveal(waiting_ok);
    let cp = pos_of(wn, ci);
    lemma_idx_pos_of(wn, hn, ci);
    let c = cost0[ci].unwrap();
    lemma_triangle(start, cp, goal);
    assert(in_box(start, goal, cp));
    assert(c == manhattan(start, cp));
    assert forall|j: int| 0 <= j < n && (#[trigger] cost0[j]) == Some(manhattan(start, pos_of(wn, j)) as usize) implies cost[j] == cost0[j] by {
        lemma_idx_pos_of(wn, hn, j);
    }
    assert forall|j: int|
        0 <= j < n && #[trigger] closed[j] implies cost[j] == Some(manhattan(start, pos_of(wn, j)) as usize) && in_box(
        start,
        goal,
        pos_of(wn, j),
    ) && cost[toward(pos_of(wn, j), goal).y * wn + toward(pos_of(wn, j), goal).x] == Some(
        manhattan(start, toward(pos_of(wn, j), goal)) as usize,
    ) by {
        lemma_idx_pos_of(wn, hn, j);
        let t = toward(pos_of(wn, j), goal);
        let ti = t.y * wn + t.x;
        if j == ci {
            assert(on_grid(view, t));
            assert(t != start);
            assert(passable(view, keys, t));
            assert(neighbors.contains(t));
            lemma_pos_of(wn, hn, t);
            assert(cost[ti].unwrap() >= manhattan(start, pos_of(wn, ti)));
        } else {
            assert(cl0[j]);
            lemma_pos_of(wn, hn, goal);
            assert(pos_of(wn, j) != goal);
            assert(on_grid(view, t));
            lemma_pos_of(wn, hn, t);
        }
    }
    assert forall|j: int|
        0 <= j < n && !closed[j] && in_box(start, goal, pos_of(wn, j)) && #[trigger] cost[j] == Some(
            manhattan(start, pos_of(wn, j)) as usize,
        ) implies queued_at(frontier, pos_of(wn, j), manhattan(start, pos_of(wn, j)), goal) by {
        lemma_idx_pos_of(wn, hn, j);
        let p = pos_of(wn, j);
        if cost[j] != cost0[j] {
        } else {
            assert(!cl0[j]);
            let e = choose|e: int| 0 <= e < fr.len() && #[trigger] fr[e] == (sat_add(manhattan(start, p), manhattan(p, goal)), p);
            assert(e != m);
            let e2 = if e < m { e } else { e - 1 };
            assert(fr1[e2] == fr[e]);
            assert(frontier[e2] == fr[e]);
        }
    }
}

pub(crate) proof fn lemma_sum_within_product(w: int, h: int)
    requires
        w >= 1,
        h >= 1,
    ensures
        (w - 1) + (h - 1) <= w * h - 1,
{
    assert((w - 1) * (h - 1) >= 0) by (nonlinear_arith)
        requires
            w >= 1,
            h >= 1,
    ;
    assert((w - 1) * (h - 1) == w * h - w - h + 1) by (nonlinear_arith);
}

/// One improvement of `relax_neighbors`: cell `ni` (at `nb`) gets cost `nc`
/// and is queued; the entries stay sound and every changed cost is queued.
proof fn lemma_relax_step(
    view: &EnvironmentView,
    wn: nat,
    hn: nat,
    start: Position,
    goal: Position,
    oc: Seq<Option<usize>>,
    pc: Seq<Option<usize>>,
    cost: Seq<Option<usize>>,
    fr: Seq<(usize, Position)>,
    frontier: Seq<(usize, Position)>,
    ni: int,
    nb: Position,
    nc: usize,
)
    requires
        wn == view.terrain_grid.spec_width(),
        hn == view.terrain_grid.spec_height(),
        pc.len() == wn * hn,
        oc.len() == wn * hn,
        on_grid(view, nb),
        ni == nb.y * wn + nb.x,
        pos_of(wn, ni) == nb,
        0 <= ni < wn * hn,
        cost == pc.update(ni, Some(nc)),
        pc[ni] is None || nc < pc[ni].unwrap(),
        nc >= manhattan(start, nb),
        frontier == fr.push((sat_add(nc as int, manhattan(nb, goal)), nb)),
        entries_ok(view, wn, start, goal, pc, fr),
        forall|jj: int|
            0 <= jj < wn * hn && (#[trigger] pc[jj]).is_some() && pc[jj] != oc[jj] ==> queued_at(fr, pos_of(wn, jj), pc[jj].unwrap() as int, goal),
    ensures
        entries_ok(view, wn, start, goal, cost, frontier),
        forall|jj: int|
            0 <= jj < wn * hn && (#[trigger] cost[jj]).is_some() && cost[jj] != oc[jj] ==> queued_at(frontier, pos_of(wn, jj), cost[jj].unwrap() as int, goal),
{
    reveal(entries_ok);
    assert forall|e: int| 0 <= e < frontier.len() implies entry_ok(view, wn, start, goal, cost, #[trigger] frontier[e]) by {
        if e < fr.len() {
            assert(frontier[e] == fr[e]);
            assert(entry_ok(view, wn, start, goal, pc, fr[e]));
            lemma_pos_of(wn, hn, fr[e].1);
        } else {
            lemma_triangle(start, nb, goal);
        }
    }
    assert forall|jj: int|
        0 <= jj < wn * hn && (#[trigger] cost[jj]).is_some() && cost[jj] != oc[jj] implies queued_at(frontier, pos_of(wn, jj), cost[jj].unwrap() as int, goal) by {
        if jj == ni {
            assert(frontier[fr.len() as int] == (sat_add(nc as int, manhattan(nb, goal)), nb));
        } else {
            let e = choose|e: int| 0 <= e < fr.len() && #[trigger] fr[e] == (sat_add(pc[jj].unwrap() as int, manhattan(pos_of(wn, jj), goal)), pos_of(wn, jj));
            assert(frontier[e] == fr[e]);
        }
    }
}

/// Records, for each neighbour of the expanded cell `cp` (index `ci`, cost
/// `c`) that it reaches more cheaply than before, the new cost and parent,
/// and queues it with its cost plus its distance to the goal.
#[verifier::rlimit(100)]
pub(crate) fn relax_neighbors(
    neighbors: &Vec<Position>,
    cp: Position,
    ci: usize,
    c: usize,
    start: Position,
    goal: Position,
    view: &EnvironmentView,
    keys_held: &Vec<DoorKeyType>,
    cost: &mut Vec<Option<usize>>,
    parent: &mut Vec<usize>,
    frontier: &mut Vec<(usize, Position)>,
    si: usize,
    bound: usize,
)
    requires
        view.wf(),
        view.terrain_grid.in_bounds(goal.x as int, goal.y as int),
        search_tree(view, keys_held@, view.terrain_grid.spec_width(), view.terrain_grid@.len(), si as int, old(cost)@, old(parent)@),
        costs_at_most(old(cost)@, bound as nat),
        costs_above(old(cost)@, view.terrain_grid.spec_width(), start),
        entries_ok(view, view.terrain_grid.spec_width(), start, goal, old(cost)@, old(frontier)@),
        0 <= ci < view.terrain_grid@.len(),
        pos_of(view.terrain_grid.spec_width(), ci as int) == cp,
        old(cost)@[ci as int] == Some(c),
        c < bound,
        forall|q: Position| #[trigger] neighbors@.contains(q) ==> adjacent(cp, q) && passable(view, keys_held@, q),
    ensures
        search_tree(view, keys_held@, view.terrain_grid.spec_width(), view.terrain_grid@.len(), si as int, final(cost)@, final(parent)@),
        costs_at_most(final(cost)@, bound as nat),
        costs_above(final(cost)@, view.terrain_grid.spec_width(), start),
        entries_ok(view, view.terrain_grid.spec_width(), start, goal, final(cost)@, final(frontier)@),
        final(cost)@.len() == old(cost)@.len(),
        forall|j: int|
            0 <= j < old(cost)@.len() && (#[trigger] old(cost)@[j]).is_some() ==> final(cost)@[j].is_some()
                && final(cost)@[j].unwrap() <= old(cost)@[j].unwrap(),
        forall|q: Position|
            #[trigger] neighbors@.contains(q) ==> final(cost)@[q.y * view.terrain_grid.spec_width() + q.x].is_some()
                && final(cost)@[q.y * view.terrain_grid.spec_width() + q.x].unwrap() <= c + 1,
        final(frontier)@.len() >= old(frontier)@.len(),
        forall|e: int| 0 <= e < old(frontier)@.len() ==> #[trigger] final(frontier)@[e] == old(frontier)@[e],
        forall|j: int|
            0 <= j < final(cost)@.len() && (#[trigger] final(cost)@[j]).is_some() && final(cost)@[j] != old(cost)@[j]
                ==> queued_at(final(frontier)@, pos_of(view.terrain_grid.spec_width(), j), final(cost)@[j].unwrap() as int, goal),
{
    let w = view.terrain_grid.width();
    let h = view.terrain_grid.height();
    let ghost wn = w as nat;
    let ghost n = view.terrain_grid@.len();
    let ghost oc = cost@;
    let ghost of = frontier@;
    proof {
        assert(w >= 1 && h >= 1) by (nonlinear_arith)
            requires
                0 <= ci < n,
                n == w * h,
        ;
        lemma_sum_within_product(w as int, h as int);
    }
    let mut j: usize = 0;
    while j < neighbors.len()
        invariant
            view.wf(),
            w == view.terrain_grid.spec_width(),
            h == view.terrain_grid.spec_height(),
            wn == w,
            n == view.terrain_grid@.len(),
            n == w * h,
            w >= 1 && h >= 1,
            (w - 1) + (h - 1) <= w * h - 1,
            view.terrain_grid.in_bounds(goal.x as int, goal.y as int),
            search_tree(view, keys_held@, wn, n, si as int, cost@, parent@),
            costs_at_most(cost@, bound as nat),
            costs_above(cost@, wn, start),
            entries_ok(view, wn, start, goal, cost@, frontier@),
            pos_of(wn, ci as int) == cp,
            0 <= ci < n,
            cost@[ci as int] == Some(c),
            c < bound,
            manhattan(start, cp) <= c,
            j <= neighbors@.len(),
            forall|q: Position| #[trigger] neighbors@.contains(q) ==> adjacent(cp, q) && passable(view, keys_held@, q),
            oc.len() == n,
            forall|jj: int|
                0 <= jj < n && (#[trigger] oc[jj]).is_some() ==> cost@[jj].is_some() && cost@[jj].unwrap() <= oc[jj].unwrap(),
            forall|k: int|
                0 <= k < j ==> cost@[neighbors@[k].y * wn + neighbors@[k].x].is_some() && cost@[#[trigger] neighbors@[k].y * wn
                    + neighbors@[k].x].unwrap() <= c + 1,
            frontier@.len() >= of.len(),
            forall|e: int| 0 <= e < of.len() ==> #[trigger] frontier@[e] == of[e],
            forall|jj: int|
                0 <= jj < n && (#[trigger] cost@[jj]).is_some() && cost@[jj] != oc[jj] ==> queued_at(
                    frontier@,
                    pos_of(wn, jj),
                    cost@[jj].unwrap() as int,
                    goal,
                ),
        decreases neighbors.len() - j,
    {
        let nb = neighbors[j];
        proof {
            assert(neighbors@.contains(nb));
            assert(passable(view, keys_held@, nb));
            assert(nb.x < w && nb.y < h);
            lemma_pos_of(wn, h as nat, nb);
            assert(manhattan(nb, goal) <= (w - 1) + (h - 1));
        }
        let ni = nb.y * w + nb.x;
        let new_cost = c + 1;
        let better = match cost[ni] {
            None => true,
            Some(old_cost) => new_cost < old_cost,
        };
        if better && ni != si {
            let ghost fr = frontier@;
            let ghost pc = cost@;
            cost.set(ni, Some(new_cost));
            parent.set(ni, ci);
            let d = PlanningAgent::manhattan_distance(&nb, &goal);
            frontier.push((new_cost.saturating_add(d), nb));
            proof {
                assert(frontier@[fr.len() as int] == (new_cost.saturating_add(d), nb));
                lemma_relax_step(view, wn, h as nat, start, goal, oc, pc, cost@, fr, frontier@, ni as int, nb, new_cost);
                assert forall|k: int| 0 <= k < j implies cost@[neighbors@[k].y * wn + neighbors@[k].x].is_some() && cost@[#[trigger] neighbors@[k].y * wn
                    + neighbors@[k].x].unwrap() <= c + 1 by {
                    assert(neighbors@.contains(neighbors@[k]));
                    lemma_pos_of(wn, h as nat, neighbors@[k]);
                }
            }
        } else {
            proof {
                assert forall|k: int| 0 <= k < j + 1 implies cost@[neighbors@[k].y * wn + neighbors@[k].x].is_some() && cost@[#[trigger] neighbors@[k].y * wn
                    + neighbors@[k].x].unwrap() <= c + 1 by {
                    if k == j {
                        if ni == si {
                        }
                    }
                }
            }
        }
        j = j + 1;
    }
    proof {
        assert forall|q: Position| #[trigger] neighbors@.contains(q) implies cost@[q.y * wn + q.x].is_some() && cost@[q.y * wn
            + q.x].unwrap() <= c + 1 by {
            let k = choose|k: int| 0 <= k < neighbors@.len() && neighbors@[k] == q;
            assert(cost@[neighbors@[k].y * wn + neighbors@[k].x].is_some());
        }
    }
}

/// Follows parents from the goal's index back to the start's and returns the
/// positions from start to goal.
#[verifier::rlimit(100)]
pub(crate) fn trace_back(
    view: &EnvironmentView,
    keys_held: &Vec<DoorKeyType>,
    w: usize,
    si: usize,
    gi: usize,
    start: Position,
    goal: Position,
    cost: &Vec<Option<usize>>,
    parent: &Vec<usize>,
) -> (path: Vec<Position>)
    requires
        view.wf(),
        w == view.terrain_grid.spec_width(),
        search_tree(view, keys_held@, w as nat, view.terrain_grid@.len(), si as int, cost@, parent@),
        0 <= gi < view.terrain_grid@.len(),
        cost@[gi as int].is_some(),
        pos_of(w as nat, si as int) == start,
        pos_of(w as nat, gi as int) == goal,
    ensures
        is_walk(view, keys_held@, path@),
        path@[0] == start,
        path@.last() == goal,
        path@.len() <= cost@[gi as int].unwrap() + 1,
{
    let ghost wn = w as nat;
    let ghost n = view.terrain_grid@.len();
    assert(w > 0) by (nonlinear_arith)
        requires
            0 <= gi < n,
            n == view.terrain_grid.spec_width() * view.terrain_grid.spec_height(),
            w == view.terrain_grid.spec_width(),
    ;
    let mut rev: Vec<Position> = Vec::new();
    rev.push(goal);
    let mut cur = gi;
    while cur != si
        invariant
            wn == w,
            w > 0,
            view.wf(),
            w == view.terrain_grid.spec_width(),
            n == view.terrain_grid@.len(),
            search_tree(view, keys_held@, wn, n, si as int, cost@, parent@),
            0 <= cur < n,
            cost@[cur as int].is_some(),
            pos_of(wn, si as int) == start,
            rev@.len() >= 1,
            rev@[0] == goal,
            rev@.last() == pos_of(wn, cur as int),
            rev@.len() + cost@[cur as int].unwrap() <= cost@[gi as int].unwrap() + 1,
            forall|i: int| 0 <= i < rev@.len() - 1 ==> adjacent(#[trigger] rev@[i + 1], rev@[i]) && passable(view, keys_held@, rev@[i]),
        decreases cost@[cur as int].unwrap(),
    {
        let p = parent[cur];
        let pp = Position { x: p % w, y: p / w };
        rev.push(pp);
        cur = p;
    }
    reverse_walk(view, keys_held, &rev)
}

/// The positions of `rev` in reverse order: a walk from its last position to its first.
fn reverse_walk(view: &EnvironmentView, keys_held: &Vec<DoorKeyType>, rev: &Vec<Position>) -> (path: Vec<Position>)
    requires
        rev@.len() >= 1,
        forall|i: int| 0 <= i < rev@.len() - 1 ==> adjacent(#[trigger] rev@[i + 1], rev@[i]) && passable(view, keys_held@, rev@[i]),
    ensures
        path@.len() == rev@.len(),
        is_walk(view, keys_held@, path@),
        path@[0] == rev@.last(),
        path@.last() == rev@[0],
{
    let mut path: Vec<Position> = Vec::new();
    let mut k: usize = rev.len();
    while k > 0
        invariant
            k <= rev@.len(),
            path@.len() == rev@.len() - k,
            forall|i: int| 0 <= i < path@.len() ==> #[trigger] path@[i] == rev@[rev@.len() - 1 - i],
        decreases k,
    {
        k = k - 1;
        path.push(rev[k]);
    }
    proof {
        assert forall|i: int| 1 <= i < path@.len() implies adjacent(path@[i - 1], #[trigger] path@[i]) && passable(
            view,
            keys_held@,
            path@[i],
        ) by {
            let a = rev@.len() - 1 - i;
            assert(path@[i] == rev@[a]);
            assert(path@[i - 1] == rev@[a + 1]);
        }
    }
    path
}

/// Every passable neighbour of an expanded cell has been reached.
#[verifier::opaque]
pub open spec fn expanded_closed(
    view: &EnvironmentView,
    keys: Seq<DoorKeyType>,
    wn: nat,
    n: nat,
    cost: Seq<Option<usize>>,
    closed: Seq<bool>,
) -> bool {
    forall|j: int, q: Position|
        0 <= j < n && #[trigger] closed[j] && adjacent(pos_of(wn, j), q) && #[trigger] passable(view, keys, q)
            ==> cost[q.y * wn + q.x].is_some()
}

/// Every reached cell that is not expanded has an entry in the queue.
#[verifier::opaque]
pub open spec fn reached_queued(wn: nat, n: nat, cost: Seq<Option<usize>>, closed: Seq<bool>, frontier: Seq<(usize, Position)>) -> bool {
    forall|j: int|
        0 <= j < n && (#[trigger] cost[j]).is_some() && !closed[j] ==> exists|e: int|
            0 <= e < frontier.len() && (#[trigger] frontier[e]).1 == pos_of(wn, j)
}

/// Dropping a popped entry of an expanded cell keeps every other reached cell queued.
pub(crate) proof fn lemma_reached_after_pop(
    wn: nat,
    hn: nat,
    cost: Seq<Option<usize>>,
    closed: Seq<bool>,
    fr: Seq<(usize, Position)>,
    frontier: Seq<(usize, Position)>,
    m: int,
    ci: int,
)
    requires
        wn * hn <= usize::MAX,
        0 <= m < fr.len(),
        frontier == fr.remove(m),
        0 <= ci < wn * hn,
        closed.len() == wn * hn,
        closed[ci],
        fr[m].1 == pos_of(wn, ci),
        reached_queued(wn, wn * hn, cost, closed, fr),
    ensures
        reached_queued(wn, wn * hn, cost, closed, frontier),
{
    reveal(reached_queued);
    assert forall|j: int| 0 <= j < wn * hn && (#[trigger] cost[j]).is_some() && !closed[j] implies exists|e: int|
        0 <= e < frontier.len() && (#[trigger] frontier[e]).1 == pos_of(wn, j) by {
        let e = choose|e: int| 0 <= e < fr.len() && (#[trigger] fr[e]).1 == pos_of(wn, j);
        lemma_idx_pos_of(wn, hn, j);
        lemma_idx_pos_of(wn, hn, ci);
        assert(e != m);
        let e2 = if e < m { e } else { e - 1 };
        assert(frontier[e2] == fr[e]);
    }
}

/// Expanding cell `ci` and relaxing its neighbours keeps every passable
/// neighbour of an expanded cell reached and every reached, unexpanded cell queued.
pub(crate) proof fn lemma_reached_after_expand(
    view: &EnvironmentView,
    keys: Seq<DoorKeyType>,
    wn: nat,
    hn: nat,
    cost0: Seq<Option<usize>>,
    cost: Seq<Option<usize>>,
    cl0: Seq<bool>,
    closed: Seq<bool>,
    fr: Seq<(usize, Position)>,
    fr1: Seq<(usize, Position)>,
    frontier: Seq<(usize, Position)>,
    m: int,
    ci: int,
    neighbors: Seq<Position>,
    goal: Position,
)
    requires
        wn == view.terrain_grid.spec_width(),
        hn == view.terrain_grid.spec_height(),
        wn * hn <= usize::MAX,
        cost0.len() == wn * hn,
        cost.len() == wn * hn,
        cl0.len() == wn * hn,
        0 <= ci < wn * hn,
        closed == cl0.update(ci, true),
        0 <= m < fr.len(),
        fr1 == fr.remove(m),
        fr[m].1 == pos_of(wn, ci),
        forall|j: int|
            0 <= j < wn * hn && (#[trigger] cost0[j]).is_some() ==> cost[j].is_some() && cost[j].unwrap() <= cost0[j].unwrap(),
        forall|q: Position| #[trigger] neighbors.contains(q) ==> cost[q.y * wn + q.x].is_some(),
        forall|q: Position| neighbors.contains(q) <==> adjacent(pos_of(wn, ci), q) && passable(view, keys, q),
        frontier.len() >= fr1.len(),
        forall|e: int| 0 <= e < fr1.len() ==> #[trigger] frontier[e] == fr1[e],
        forall|j: int|
            0 <= j < wn * hn && (#[trigger] cost[j]).is_some() && cost[j] != cost0[j] ==> queued_at(frontier, pos_of(wn, j), cost[j].unwrap() as int, goal),
        expanded_closed(view, keys, wn, wn * hn, cost0, cl0),
        reached_queued(wn, wn * hn, cost0, cl0, fr),
    ensures
        expanded_closed(view, keys, wn, wn * hn, cost, closed),
        reached_queued(wn, wn * hn, cost, closed, frontier),
{
    reveal(expanded_closed);
    reveal(reached_queued);
    assert forall|j: int, q: Position|
        0 <= j < wn * hn && #[trigger] closed[j] && adjacent(pos_of(wn, j), q) && #[trigger] passable(view, keys, q) implies cost[q.y * wn
        + q.x].is_some() by {
        if j == ci {
            assert(neighbors.contains(q));
        } else {
            assert(cl0[j]);
            assert(cost0[q.y * wn + q.x].is_some());
            lemma_pos_of(wn, hn, q);
        }
    }
    assert forall|j: int| 0 <= j < wn * hn && (#[trigger] cost[j]).is_some() && !closed[j] implies exists|e: int|
        0 <= e < frontier.len() && (#[trigger] frontier[e]).1 == pos_of(wn, j) by {
        if cost[j] != cost0[j] {
            let e = choose|e: int| 0 <= e < frontier.len() && #[trigger] frontier[e] == (sat_add(cost[j].unwrap() as int, manhattan(pos_of(wn, j), goal)), pos_of(wn, j));
            assert(frontier[e].1 == pos_of(wn, j));
        } else {
            assert(!cl0[j]);
            let e = choose|e: int| 0 <= e < fr.len() && (#[trigger] fr[e]).1 == pos_of(wn, j);
            lemma_idx_pos_of(wn, hn, j);
            lemma_idx_pos_of(wn, hn, ci);
            assert(e != m);
            let e2 = if e < m { e } else { e - 1 };
            assert(fr1[e2] == fr[e]);
            assert(frontier[e2] == fr[e]);
        }
    }
}

/// When the queue has run dry, every cell on a walk from the reached start is reached.
pub(crate) proof fn lemma_walk_reached(
    view: &EnvironmentView,
    keys: Seq<DoorKeyType>,
    wn: nat,
    hn: nat,
    cost: Seq<Option<usize>>,
    closed: Seq<bool>,
    path: Seq<Position>,
    i: int,
)
    requires
        wn == view.terrain_grid.spec_width(),
        hn == view.terrain_grid.spec_height(),
        wn * hn <= usize::MAX,
        cost.len() == wn * hn,
        closed.len() == wn * hn,
        is_walk(view, keys, path),
        on_grid(view, path[0]),
        cost[path[0].y * wn + path[0].x].is_some(),
        0 <= i < path.len(),
        expanded_closed(view, keys, wn, wn * hn, cost, closed),
        reached_queued(wn, wn * hn, cost, closed, Seq::<(usize, Position)>::empty()),
    ensures
        cost[path[i].y * wn + path[i].x].is_some(),
    decreases i,
{
    if i > 0 {
        lemma_walk_reached(view, keys, wn, hn, cost, closed, path, i - 1);
        let p = path[i - 1];
        let j = p.y * wn + p.x;
        if i - 1 == 0 {
            lemma_pos_of(wn, hn, p);
        } else {
            assert(passable(view, keys, path[i - 1]));
            lemma_pos_of(wn, hn, p);
        }
        reveal(reached_queued);
        reveal(expanded_closed);
        assert(closed[j]);
        assert(adjacent(path[i - 1], path[i]) && passable(view, keys, path[i]));
    }
}

/// Taking a cheapest entry out of the queue keeps the other entries sound;
/// on an open grid the entry taken lies on a shortest route.
pub(crate) proof fn lemma_pop_entry(
    view: &EnvironmentView,
    wn: nat,
    hn: nat,
    start: Position,
    goal: Position,
    cost: Seq<Option<usize>>,
    fr: Seq<(usize, Position)>,
    frontier: Seq<(usize, Position)>,
    m: int,
    open: bool,
)
    requires
        wn == view.terrain_grid.spec_width(),
        hn == view.terrain_grid.spec_height(),
        entries_ok(view, wn, start, goal, cost, fr),
        0 <= m < fr.len(),
        frontier == fr.remove(m),
        forall|e: int| 0 <= e < fr.len() ==> fr[m].0 <= (#[trigger] fr[e]).0,
        manhattan(start, goal) < usize::MAX,
        open ==> exists|e: int| 0 <= e < fr.len() && (#[trigger] fr[e]).0 <= manhattan(start, goal),
    ensures
        entries_ok(view, wn, start, goal, cost, frontier),
        entry_ok(view, wn, start, goal, cost, fr[m]),
        on_grid(view, fr[m].1),
        open ==> fr[m].0 <= manhattan(start, goal) && in_box(start, goal, fr[m].1),
{
    reveal(entries_ok);
    assert(entry_ok(view, wn, start, goal, cost, fr[m]));
    assert forall|e: int| 0 <= e < frontier.len() implies entry_ok(view, wn, start, goal, cost, #[trigger] frontier[e]) by {
        assert(frontier[e] == fr[if e < m { e } else { e + 1 }]);
    }
    if open {
        let e0 = choose|e: int| 0 <= e < fr.len() && (#[trigger] fr[e]).0 <= manhattan(start, goal);
        assert(fr[m].0 <= fr[e0].0);
        lemma_triangle(start, fr[m].1, goal);
    }
}

} // verus!
