//! Agents: the decision interface, a random walker and an A* planner.
use rand::rngs::StdRng;
use rand::{Rng, SeedableRng};
use std::collections::VecDeque;
use vstd::prelude::*;

use crate::environment::{has_key, holds_key, Action, CellType, EnvironmentView};
use crate::search::{row_before, row_major_sorted, lemma_pop_entry, expanded_closed, reached_queued, lemma_reached_after_pop, lemma_reached_after_expand, lemma_walk_reached, adjacent, on_grid, costs_above, costs_at_most, count_true, entries_ok, entry_ok, expanded_ok, in_box, is_walk, lemma_after_expand, lemma_cheap_entry, lemma_count_true_bound, lemma_count_true_set, lemma_count_zero, lemma_pos_of, lemma_requeue_after_pop, lemma_sum_within_product, lemma_triangle, open_grid, passable, pos_of, queued_at, reachable, relax_neighbors, sat_add, search_tree, toward, trace_back, waiting_ok};
use crate::{manhattan, DoorKeyType, EntityId, Item, Position};

verus! {

/// The decision interface of an agent.
pub trait Agent {
    /// The id of this agent.
    fn id(&self) -> EntityId;

    /// Whether `next` and `a` are a state and action this agent may move to and
    /// take when deciding on `view`.
    spec fn decides(&self, next: &Self, view: &EnvironmentView, a: Action) -> bool;

    /// The action to take, given a view of the world at the start of the decision.
    fn get_action(&mut self, view: &EnvironmentView) -> (r: Action)
        requires
            view.wf(),
        ensures
            old(self).decides(final(self), view, r),
    ;
}

/// The single step from `src` to `dst`: `Wait` when they coincide, a unit
/// move when they are neighbours, and `Wait` for anything else.
pub open spec fn step_action(src: Position, dst: Position) -> Action {
    if dst == src {
        Action::Wait
    } else if dst.x == src.x && dst.y == src.y + 1 {
        Action::Move { dx: 0, dy: 1 }
    } else if dst.x == src.x && dst.y + 1 == src.y {
        Action::Move { dx: 0, dy: -1isize }
    } else if dst.y == src.y && dst.x == src.x + 1 {
        Action::Move { dx: 1, dy: 0 }
    } else if dst.y == src.y && dst.x + 1 == src.x {
        Action::Move { dx: -1isize, dy: 0 }
    } else {
        Action::Wait
    }
}

/// The item on the ground at `p`.
pub open spec fn item_at(view: &EnvironmentView, p: Position) -> Option<Item> {
    view.item_grid.spec_at(p.x as int, p.y as int)
}

pub open spec fn chips_remain(view: &EnvironmentView) -> bool {
    exists|p: Position| on_grid(view, p) && #[trigger] item_at(view, p) == Some(Item::Chip)
}

/// `p` holds a key on the ground of a colour not in `keys`.
pub open spec fn unheld_key_at(view: &EnvironmentView, keys: Seq<DoorKeyType>, p: Position) -> bool {
    on_grid(view, p) && (item_at(view, p) matches Some(Item::Key { key_type }) && !keys.contains(key_type))
}

/// The colour of a key item.
pub open spec fn key_colour(it: Option<Item>) -> DoorKeyType {
    match it {
        Some(Item::Key { key_type }) => key_type,
        _ => DoorKeyType::Red,
    }
}

/// The place of a colour in the order red, green, blue, yellow.
pub open spec fn colour_rank(k: DoorKeyType) -> int {
    match k {
        DoorKeyType::Red => 0,
        DoorKeyType::Green => 1,
        DoorKeyType::Blue => 2,
        DoorKeyType::Yellow => 3,
    }
}

/// The colours held among `colours`, in their order.
pub open spec fn held_from(inv: Seq<Item>, colours: Seq<DoorKeyType>) -> Seq<DoorKeyType>
    decreases colours.len(),
{
    if colours.len() == 0 {
        Seq::empty()
    } else {
        held_from(inv, colours.drop_last()) + if has_key(inv, colours.last()) {
            seq![colours.last()]
        } else {
            Seq::empty()
        }
    }
}

/// The key colours the viewer holds, in the order red, green, blue, yellow.
pub open spec fn held_keys(view: &EnvironmentView) -> Seq<DoorKeyType> {
    held_from(view.agent_state.inventory@, seq![DoorKeyType::Red, DoorKeyType::Green, DoorKeyType::Blue, DoorKeyType::Yellow])
}

/// What a planner may choose as a target of class `kind`: 0 a chip, 1 a goal,
/// 2 a key of a colour not in `keys`.
pub open spec fn target_kind(view: &EnvironmentView, keys: Seq<DoorKeyType>, kind: int, p: Position) -> bool {
    if kind == 0 {
        on_grid(view, p) && item_at(view, p) == Some(Item::Chip)
    } else if kind == 1 {
        on_grid(view, p) && item_at(view, p) == Some(Item::Goal)
    } else {
        unheld_key_at(view, keys, p)
    }
}

/// Class `kind` offers a reachable target away from where the viewer stands.
pub open spec fn class_open(view: &EnvironmentView, keys: Seq<DoorKeyType>, kind: int) -> bool {
    &&& !target_kind(view, keys, kind, view.location)
    &&& exists|p: Position| target_kind(view, keys, kind, p) && #[trigger] reachable(view, keys, view.location, p)
}

/// `r` is the first step of a walk of two or more positions from the viewer
/// to a target of class `kind`, and `plan` holds the rest of that walk.
pub open spec fn heads_for(view: &EnvironmentView, keys: Seq<DoorKeyType>, kind: int, r: Action, plan: Seq<Position>) -> bool {
    exists|path: Seq<Position>, cands: Seq<Position>, outs: Seq<Option<Seq<Position>>>|
        {
            &&& #[trigger] nearest_choice(view, keys, kind, cands, outs, path)
            &&& path.len() > 1
            &&& is_walk(view, keys, path)
            &&& path[0] == view.location
            &&& target_kind(view, keys, kind, path.last())
            &&& r == step_action(view.location, path[1])
            &&& plan == path.subrange(2, path.len() as int)
        }
}

/// `path` is the first of the shortest search outcomes from the viewer to the
/// targets of class `kind`, listed in `cands` (in row-major order for chips and goals).
pub open spec fn nearest_choice(
    view: &EnvironmentView,
    keys: Seq<DoorKeyType>,
    kind: int,
    cands: Seq<Position>,
    outs: Seq<Option<Seq<Position>>>,
    path: Seq<Position>,
) -> bool {
    &&& forall|p: Position| #[trigger] cands.contains(p) <==> target_kind(view, keys, kind, p)
    &&& kind < 2 ==> row_major_sorted(cands)
    &&& outs.len() == cands.len()
    &&& forall|i: int| 0 <= i < outs.len() ==> search_outcome(view, keys, view.location, cands[i], #[trigger] outs[i])
    &&& first_shortest(outs, Some(path))
}

/// One planner decision: a queued waypoint is followed first; otherwise the
/// planner heads for a chip (a goal once no chip remains) whenever one can be
/// reached, else for a key of a colour not held, and waits with an empty
/// queue only when neither can be reached.
pub open spec fn planner_step(view: &EnvironmentView, old_plan: Seq<Position>, new_plan: Seq<Position>, r: Action) -> bool {
    if old_plan.len() > 0 {
        r == step_action(view.location, old_plan[0]) && new_plan == old_plan.drop_first()
    } else {
        let keys = held_keys(view);
        let first: int = if chips_remain(view) { 0 } else { 1 };
        &&& class_open(view, keys, first) ==> heads_for(view, keys, first, r, new_plan)
        &&& heads_for(view, keys, first, r, new_plan) || heads_for(view, keys, 2, r, new_plan) || (r == Action::Wait
            && new_plan.len() == 0 && !class_open(view, keys, first) && !class_open(view, keys, 2))
    }
}

/// The place of neighbour `q` of `p` in the order down, up, right, left.
pub open spec fn dir_rank(p: Position, q: Position) -> int {
    if q.x == p.x && q.y == p.y + 1 {
        0
    } else if q.x == p.x && q.y + 1 == p.y {
        1
    } else if q.y == p.y && q.x == p.x + 1 {
        2
    } else {
        3
    }
}

/// What a search from `start` to `goal` may give back: a walk between them,
/// present exactly when one exists, and the one-cell path when they coincide.
pub open spec fn search_outcome(
    view: &EnvironmentView,
    keys: Seq<DoorKeyType>,
    start: Position,
    goal: Position,
    o: Option<Seq<Position>>,
) -> bool {
    &&& (o matches Some(p) ==> is_walk(view, keys, p) && p[0] == start && p.last() == goal)
    &&& (o is Some <==> reachable(view, keys, start, goal))
    &&& (start == goal ==> o == Some(seq![start]))
}

pub open spec fn opt_seq(o: Option<Vec<Position>>) -> Option<Seq<Position>> {
    match o {
        Some(v) => Some(v@),
        None => None,
    }
}

/// `r` is the first of the shortest paths in `outs`, or `None` when `outs` holds none.
pub open spec fn first_shortest(outs: Seq<Option<Seq<Position>>>, r: Option<Seq<Position>>) -> bool {
    match r {
        None => forall|i: int| 0 <= i < outs.len() ==> (#[trigger] outs[i]) is None,
        Some(p) => exists|i: int|
            {
                &&& 0 <= i < outs.len()
                &&& #[trigger] outs[i] == Some(p)
                &&& forall|j: int| 0 <= j < i ==> (#[trigger] outs[j] matches Some(q) ==> p.len() < q.len())
                &&& forall|j: int| 0 <= j < outs.len() ==> (#[trigger] outs[j] matches Some(q) ==> p.len() <= q.len())
            },
    }
}

proof fn lemma_first_shortest_step(outs: Seq<Option<Seq<Position>>>, best: Option<Seq<Position>>, o: Option<Seq<Position>>, take: bool)
    requires
        first_shortest(outs, best),
        take == (o is Some && (best is None || o.unwrap().len() < best.unwrap().len())),
    ensures
        first_shortest(outs.push(o), if take { o } else { best }),
{
    let outs1 = outs.push(o);
    if take {
        let p = o.unwrap();
        assert(outs1[outs.len() as int] == Some(p));
        assert forall|j: int| 0 <= j < outs.len() implies (#[trigger] outs1[j] matches Some(q) ==> p.len() < q.len()) by {
            assert(outs1[j] == outs[j]);
            if best is None {
                assert(outs[j] is None);
            }
        }
        assert forall|j: int| 0 <= j < outs1.len() implies (#[trigger] outs1[j] matches Some(q) ==> p.len() <= q.len()) by {
            if j < outs.len() {
                assert(outs1[j] == outs[j]);
                if best is None {
                    assert(outs[j] is None);
                }
            }
        }
    } else {
        match best {
            None => {
                assert forall|i: int| 0 <= i < outs1.len() implies (#[trigger] outs1[i]) is None by {
                    if i < outs.len() {
                        assert(outs1[i] == outs[i]);
                    }
                }
            },
            Some(p) => {
                let i = choose|i: int|
                    {
                        &&& 0 <= i < outs.len()
                        &&& #[trigger] outs[i] == Some(p)
                        &&& forall|j: int| 0 <= j < i ==> (#[trigger] outs[j] matches Some(q) ==> p.len() < q.len())
                        &&& forall|j: int| 0 <= j < outs.len() ==> (#[trigger] outs[j] matches Some(q) ==> p.len() <= q.len())
                    };
                assert(outs1[i] == Some(p));
                assert forall|j: int| 0 <= j < i implies (#[trigger] outs1[j] matches Some(q) ==> p.len() < q.len()) by {
                    assert(outs1[j] == outs[j]);
                }
                assert forall|j: int| 0 <= j < outs1.len() implies (#[trigger] outs1[j] matches Some(q) ==> p.len() <= q.len()) by {
                    if j < outs.len() {
                        assert(outs1[j] == outs[j]);
                    }
                }
            },
        }
    }
}

/// A walk of `n` steps covers a Manhattan distance of at most `n`.
pub proof fn lemma_walk_at_least_manhattan(view: &EnvironmentView, keys: Seq<DoorKeyType>, path: Seq<Position>)
    requires
        is_walk(view, keys, path),
    ensures
        manhattan(path[0], path.last()) <= path.len() - 1,
    decreases path.len(),
{
    if path.len() > 1 {
        let prefix = path.drop_last();
        assert(is_walk(view, keys, prefix)) by {
            assert forall|i: int| 1 <= i < prefix.len() implies adjacent(prefix[i - 1], #[trigger] prefix[i]) && passable(
                view,
                keys,
                prefix[i],
            ) by {
                assert(prefix[i] == path[i]);
            }
        }
        lemma_walk_at_least_manhattan(view, keys, prefix);
        assert(adjacent(path[path.len() - 2], path[path.len() - 1]));
    }
}

pub(crate) proof fn lemma_push_contains<A>(s: Seq<A>, a: A, p: A)
    ensures
        s.push(a).contains(p) <==> s.contains(p) || p == a,
{
    if s.contains(p) {
        let i = choose|i: int| 0 <= i < s.len() && s[i] == p;
        assert(s.push(a)[i] == p);
    }
    if p == a {
        assert(s.push(a)[s.len() as int] == p);
    }
    if s.push(a).contains(p) {
        let i = choose|i: int| 0 <= i < s.push(a).len() && s.push(a)[i] == p;
        if i < s.len() {
            assert(s[i] == p);
        }
    }
}

/// Whether `keys` holds colour `k`.
pub fn contains_key(keys: &Vec<DoorKeyType>, k: DoorKeyType) -> (r: bool)
    ensures
        r == keys@.contains(k),
{
    let mut i: usize = 0;
    while i < keys.len()
        invariant
            i <= keys.len(),
            forall|j: int| 0 <= j < i ==> keys@[j] != k,
        decreases keys.len() - i,
    {
        if keys[i] == k {
            return true;
        }
        i = i + 1;
    }
    false
}

/// An agent that plans paths with A* toward chips, then the goal, then keys.
#[derive(Debug)]
pub struct PlanningAgent {
    pub id: EntityId,
    pub current_plan: VecDeque<Position>,
}

impl PlanningAgent {
    pub fn new(id: EntityId) -> (r: Self)
        ensures
            r.id == id,
            r.current_plan@.len() == 0,
    {
        PlanningAgent { id, current_plan: VecDeque::new() }
    }

    /// The Manhattan distance between two positions.
    pub fn manhattan_distance(a: &Position, b: &Position) -> (r: usize)
        requires
            manhattan(*a, *b) <= usize::MAX,
        ensures
            r == manhattan(*a, *b),
    {
        let dx = if a.x > b.x { a.x - b.x } else { b.x - a.x };
        let dy = if a.y > b.y { a.y - b.y } else { b.y - a.y };
        dx + dy
    }

    /// A* from `start` to `goal` over passable cells, with step cost 1 and the
    /// Manhattan distance to the goal as the estimate; the path includes both ends.
    #[verifier::rlimit(100)]
    pub fn a_star_path(&self, start: Position, goal: Position, view: &EnvironmentView, keys_held: &Vec<DoorKeyType>) -> (r: Option<Vec<Position>>)
        requires
            view.wf(),
        ensures
            r matches Some(path) ==> is_walk(view, keys_held@, path@) && path@[0] == start && path@.last() == goal,
            r is Some <==> reachable(view, keys_held@, start, goal),
            start == goal ==> (r matches Some(path) && path@ == seq![start]),
            open_grid(view, keys_held@, start) && on_grid(view, start) && on_grid(view, goal) ==> (r matches Some(path) && path@.len() == manhattan(start, goal) + 1),
    {
        if start.x == goal.x && start.y == goal.y {
            let mut only: Vec<Position> = Vec::new();
            only.push(start);
            proof {
                assert(only@ =~= seq![start]);
                assert(is_walk(view, keys_held@, only@));
            }
            return Some(only);
        }
        if view.terrain_grid.is_valid(start.x, start.y) {
            return self.search_from(start, goal, view, keys_held);
        }
        // A start outside the grid: the search leaves it through its passable neighbours.
        let neighbors = self.get_valid_neighbors(&start, view, keys_held);
        let mut best: Option<Vec<Position>> = None;
        let mut i: usize = 0;
        while i < neighbors.len()
            invariant
                view.wf(),
                start != goal,
                i <= neighbors@.len(),
                forall|q: Position| #[trigger] neighbors@.contains(q) <==> adjacent(start, q) && passable(view, keys_held@, q),
                best matches Some(path) ==> is_walk(view, keys_held@, path@) && path@[0] == start && path@.last() == goal,
                best is Some <==> exists|j: int| 0 <= j < i && #[trigger] reachable(view, keys_held@, neighbors@[j], goal),
            decreases neighbors.len() - i,
        {
            let nb = neighbors[i];
            assert(neighbors@.contains(nb));
            assert(passable(view, keys_held@, nb));
            match self.search_from(nb, goal, view, keys_held) {
                Some(p) => {
                    let shorter = match &best {
                        None => true,
                        Some(b) => b.len() > 0 && p.len() < b.len() - 1,
                    };
                    let mut full: Vec<Position> = Vec::new();
                    full.push(start);
                    let mut k: usize = 0;
                    while k < p.len()
                        invariant
                            k <= p@.len(),
                            full@ == seq![start] + p@.subrange(0, k as int),
                        decreases p.len() - k,
                    {
                        full.push(p[k]);
                        proof {
                            assert(full@ =~= seq![start] + p@.subrange(0, k + 1));
                        }
                        k = k + 1;
                    }
                    proof {
                        assert(p@.subrange(0, p@.len() as int) =~= p@);
                        assert forall|j: int| 1 <= j < full@.len() implies adjacent(full@[j - 1], #[trigger] full@[j]) && passable(view, keys_held@, full@[j]) by {
                            assert(full@[j] == p@[j - 1]);
                            if j > 1 {
                                assert(full@[j - 1] == p@[j - 2]);
                            }
                        }
                    }
                    if shorter {
                        best = Some(full);
                    }
                },
                None => {},
            }
            i = i + 1;
        }
        proof {
            if reachable(view, keys_held@, start, goal) {
                let q = choose|q: Seq<Position>| #[trigger] is_walk(view, keys_held@, q) && q[0] == start && q.last() == goal;
                assert(q.len() > 1);
                assert(adjacent(q[0], q[1]) && passable(view, keys_held@, q[1]));
                assert(neighbors@.contains(q[1]));
                let j = choose|j: int| 0 <= j < neighbors@.len() && neighbors@[j] == q[1];
                let q1 = q.skip(1);
                assert(is_walk(view, keys_held@, q1)) by {
                    assert forall|t: int| 1 <= t < q1.len() implies adjacent(q1[t - 1], #[trigger] q1[t]) && passable(view, keys_held@, q1[t]) by {
                        assert(q1[t] == q[t + 1] && q1[t - 1] == q[t]);
                    }
                }
                assert(reachable(view, keys_held@, neighbors@[j], goal));
            }
            if best is Some {
                let j = choose|j: int| 0 <= j < neighbors@.len() && #[trigger] reachable(view, keys_held@, neighbors@[j], goal);
                let p = choose|p: Seq<Position>| #[trigger] is_walk(view, keys_held@, p) && p[0] == neighbors@[j] && p.last() == goal;
                let full = seq![start] + p;
                assert(neighbors@.contains(neighbors@[j]));
                assert(is_walk(view, keys_held@, full)) by {
                    assert forall|t: int| 1 <= t < full.len() implies adjacent(full[t - 1], #[trigger] full[t]) && passable(view, keys_held@, full[t]) by {
                        assert(full[t] == p[t - 1]);
                        if t > 1 {
                            assert(full[t - 1] == p[t - 2]);
                        }
                    }
                }
                assert(full[0] == start && full.last() == goal);
            }
        }
        best
    }

    /// A* from the in-grid cell `start` to `goal`.
    #[verifier::rlimit(100)]
    fn search_from(&self, start: Position, goal: Position, view: &EnvironmentView, keys_held: &Vec<DoorKeyType>) -> (r: Option<Vec<Position>>)
        requires
            view.wf(),
            on_grid(view, start),
        ensures
            r matches Some(path) ==> is_walk(view, keys_held@, path@) && path@[0] == start && path@.last() == goal,
            r is Some <==> reachable(view, keys_held@, start, goal),
            start == goal ==> (r matches Some(path) && path@ == seq![start]),
            open_grid(view, keys_held@, start) && on_grid(view, goal) ==> (r matches Some(path) && path@.len() == manhattan(start, goal) + 1),
    {
        let w = view.terrain_grid.width();
        let h = view.terrain_grid.height();
        if !view.terrain_grid.is_valid(goal.x, goal.y) {
            proof {
                if reachable(view, keys_held@, start, goal) {
                    let p = choose|p: Seq<Position>| #[trigger] is_walk(view, keys_held@, p) && p[0] == start && p.last() == goal;
                    if p.len() > 1 {
                        assert(passable(view, keys_held@, p[p.len() - 1]));
                    }
                }
            }
            return None;
        }
        if start.x == goal.x && start.y == goal.y {
            let mut only: Vec<Position> = Vec::new();
            only.push(start);
            proof {
                assert(only@ =~= seq![start]);
                assert(is_walk(view, keys_held@, only@));
            }
            return Some(only);
        }
        let ghost wn = w as nat;
        let ghost open = open_grid(view, keys_held@, start);
        let ghost dist = manhattan(start, goal);
        proof {
            lemma_pos_of(wn, h as nat, start);
            lemma_pos_of(wn, h as nat, goal);
            lemma_sum_within_product(w as int, h as int);
        }
        let n = w * h;
        let si = start.y * w + start.x;
        let gi = goal.y * w + goal.x;
        let mut cost: Vec<Option<usize>> = Vec::new();
        let mut parent: Vec<usize> = Vec::new();
        let mut closed: Vec<bool> = Vec::new();
        let mut i: usize = 0;
        while i < n
            invariant
                i <= n,
                cost@.len() == i,
                parent@.len() == i,
                closed@.len() == i,
                forall|j: int| 0 <= j < i ==> (#[trigger] cost@[j]).is_none(),
                forall|j: int| 0 <= j < i ==> !(#[trigger] closed@[j]),
            decreases n - i,
        {
            cost.push(None);
            parent.push(0);
            closed.push(false);
            i = i + 1;
        }
        cost.set(si, Some(0));
        proof {
            lemma_count_zero(closed@);
        }
        let mut frontier: Vec<(usize, Position)> = Vec::new();
        let d0 = Self::manhattan_distance(&start, &goal);
        frontier.push((d0, start));
        let mut n_closed: usize = 0;
        proof {
            reveal(expanded_ok);
            reveal(waiting_ok);
            reveal(entries_ok);
            reveal(expanded_closed);
            reveal(reached_queued);
            assert(frontier@[0].1 == pos_of(wn, si as int));
            assert forall|j: int| 0 <= j < n && j != si implies #[trigger] cost@[j] is None by {}
            assert(frontier@[0] == (sat_add(manhattan(start, pos_of(wn, si as int)), manhattan(pos_of(wn, si as int), goal)), pos_of(wn, si as int)));
            assert(queued_at(frontier@, pos_of(wn, si as int), manhattan(start, pos_of(wn, si as int)), goal));
            assert forall|e: int| 0 <= e < frontier@.len() implies entry_ok(view, wn, start, goal, cost@, #[trigger] frontier@[e]) by {}
            assert forall|j: int| 0 <= j < n && (#[trigger] cost@[j]).is_some() implies cost@[j].unwrap() >= manhattan(start, pos_of(wn, j)) by {}
        }
        while frontier.len() > 0
            invariant
                view.wf(),
                w == view.terrain_grid.spec_width(),
                h == view.terrain_grid.spec_height(),
                wn == w,
                n == w * h,
                n == view.terrain_grid@.len(),
                (w - 1) + (h - 1) <= w * h - 1,
                dist == manhattan(start, goal),
                dist < usize::MAX,
                open == open_grid(view, keys_held@, start),
                gi == goal.y * w + goal.x,
                si == start.y * w + start.x,
                gi < n,
                pos_of(wn, si as int) == start,
                pos_of(wn, gi as int) == goal,
                view.terrain_grid.in_bounds(goal.x as int, goal.y as int),
                view.terrain_grid.in_bounds(start.x as int, start.y as int),
                search_tree(view, keys_held@, wn, n as nat, si as int, cost@, parent@),
                closed@.len() == n,
                n_closed == count_true(closed@),
                costs_at_most(cost@, n_closed as nat),
                costs_above(cost@, wn, start),
                entries_ok(view, wn, start, goal, cost@, frontier@),
                !closed@[gi as int],
                open ==> expanded_ok(wn, n as nat, start, goal, cost@, closed@),
                open ==> waiting_ok(wn, n as nat, start, goal, cost@, closed@, frontier@),
                expanded_closed(view, keys_held@, wn, n as nat, cost@, closed@),
                reached_queued(wn, n as nat, cost@, closed@, frontier@),
                n <= usize::MAX,
            decreases n - n_closed, frontier.len(),
        {
            proof {
                lemma_count_true_bound(closed@);
                if open {
                    lemma_cheap_entry(view, keys_held@, wn, h as nat, start, goal, cost@, closed@, frontier@, start);
                }
            }
            let mut m: usize = 0;
            let mut k: usize = 1;
            while k < frontier.len()
                invariant
                    0 <= m < k <= frontier.len(),
                    forall|e: int| 0 <= e < k ==> frontier@[m as int].0 <= (#[trigger] frontier@[e]).0,
                decreases frontier.len() - k,
            {
                if frontier[k].0 < frontier[m].0 {
                    m = k;
                }
                k = k + 1;
            }
            let ghost fr = frontier@;
            let (pri, cp) = frontier.remove(m);
            proof {
                assert(fr[m as int] == (pri, cp));
                lemma_pop_entry(view, wn, h as nat, start, goal, cost@, fr, frontier@, m as int, open);
                lemma_pos_of(wn, h as nat, cp);
            }
            let ci = cp.y * w + cp.x;
            if ci == gi {
                let path = trace_back(view, keys_held, w, si, gi, start, goal, &cost, &parent);
                proof {
                    if open {
                        lemma_walk_at_least_manhattan(view, keys_held@, path@);
                    }
                }
                return Some(path);
            }
            if closed[ci] {
                proof {
                    if open {
                        lemma_requeue_after_pop(wn, n as nat, h as nat, start, goal, cost@, closed@, fr, frontier@, m as int, ci as int);
                    }
                    lemma_reached_after_pop(wn, h as nat, cost@, closed@, fr, frontier@, m as int, ci as int);
                }
                continue;
            }
            proof {
                lemma_count_true_set(closed@, ci as int);
            }
            let ghost cl0 = closed@;
            let ghost cost0 = cost@;
            let ghost fr1 = frontier@;
            closed.set(ci, true);
            proof {
                lemma_count_true_bound(closed@);
            }
            n_closed = n_closed + 1;
            let c = cost[ci].unwrap();
            let neighbors = self.get_valid_neighbors(&cp, view, keys_held);
            relax_neighbors(&neighbors, cp, ci, c, start, goal, view, keys_held, &mut cost, &mut parent, &mut frontier, si, n_closed);
            proof {
                if open {
                    lemma_after_expand(
                        view, keys_held@, wn, n as nat, h as nat, start, goal, cost0, cost@, cl0, closed@, fr, fr1, frontier@, m as int,
                        ci as int, neighbors@,
                    );
                }
                lemma_reached_after_expand(
                    view, keys_held@, wn, h as nat, cost0, cost@, cl0, closed@, fr, fr1, frontier@, m as int, ci as int, neighbors@, goal,
                );
            }
        }
        proof {
            if open {
                lemma_cheap_entry(view, keys_held@, wn, h as nat, start, goal, cost@, closed@, frontier@, start);
            }
            assert(frontier@ =~= Seq::<(usize, Position)>::empty());
            if reachable(view, keys_held@, start, goal) {
                let p = choose|p: Seq<Position>| #[trigger] is_walk(view, keys_held@, p) && p[0] == start && p.last() == goal;
                lemma_walk_reached(view, keys_held@, wn, h as nat, cost@, closed@, p, p.len() - 1);
                reveal(reached_queued);
                assert(cost@[gi as int].is_some());
            }
        }
        None
    }

    /// The cells a planner holding `keys_held` may step to from `position`,
    /// in the order down, up, right, left.
    #[verifier::rlimit(100)]
    pub fn get_valid_neighbors(&self, position: &Position, view: &EnvironmentView, keys_held: &Vec<DoorKeyType>) -> (r: Vec<Position>)
        requires
            view.wf(),
        ensures
            forall|q: Position| r@.contains(q) <==> adjacent(*position, q) && passable(view, keys_held@, q),
            r@.len() <= 4,
            forall|i: int, j: int| 0 <= i < j < r@.len() ==> dir_rank(*position, #[trigger] r@[i]) < dir_rank(*position, #[trigger] r@[j]),
    {
        let mut neighbors: Vec<Position> = Vec::new();
        let x = position.x;
        let y = position.y;
        let ghost mut found: Seq<int> = seq![-1int, -1int, -1int, -1int];
        if y < usize::MAX {
            let q = Position { x, y: y + 1 };
            if Self::can_enter(&q, view, keys_held) {
                neighbors.push(q);
                proof {
                    found = found.update(0, neighbors@.len() - 1);
                }
            }
        }
        assert(forall|i: int| 0 <= i < neighbors@.len() ==> dir_rank(*position, #[trigger] neighbors@[i]) < 1);
        assert(forall|i: int, j: int| 0 <= i < j < neighbors@.len() ==> dir_rank(*position, #[trigger] neighbors@[i]) < dir_rank(*position, #[trigger] neighbors@[j]));
        if y > 0 {
            let q = Position { x, y: y - 1 };
            if Self::can_enter(&q, view, keys_held) {
                neighbors.push(q);
                proof {
                    found = found.update(1, neighbors@.len() - 1);
                }
            }
        }
        assert(forall|i: int| 0 <= i < neighbors@.len() ==> dir_rank(*position, #[trigger] neighbors@[i]) < 2);
        assert(forall|i: int, j: int| 0 <= i < j < neighbors@.len() ==> dir_rank(*position, #[trigger] neighbors@[i]) < dir_rank(*position, #[trigger] neighbors@[j]));
        if x < usize::MAX {
            let q = Position { x: x + 1, y };
            if Self::can_enter(&q, view, keys_held) {
                neighbors.push(q);
                proof {
                    found = found.update(2, neighbors@.len() - 1);
                }
            }
        }
        assert(forall|i: int| 0 <= i < neighbors@.len() ==> dir_rank(*position, #[trigger] neighbors@[i]) < 3);
        assert(forall|i: int, j: int| 0 <= i < j < neighbors@.len() ==> dir_rank(*position, #[trigger] neighbors@[i]) < dir_rank(*position, #[trigger] neighbors@[j]));
        if x > 0 {
            let q = Position { x: x - 1, y };
            if Self::can_enter(&q, view, keys_held) {
                neighbors.push(q);
                proof {
                    found = found.update(3, neighbors@.len() - 1);
                }
            }
        }
        assert(forall|i: int| 0 <= i < neighbors@.len() ==> dir_rank(*position, #[trigger] neighbors@[i]) < 4);
        assert(forall|i: int, j: int| 0 <= i < j < neighbors@.len() ==> dir_rank(*position, #[trigger] neighbors@[i]) < dir_rank(*position, #[trigger] neighbors@[j]));
        proof {
            assert(forall|i: int| 0 <= i < neighbors@.len() ==> adjacent(*position, #[trigger] neighbors@[i]) && passable(view, keys_held@, neighbors@[i]));
            assert forall|q: Position| adjacent(*position, q) && passable(view, keys_held@, q) implies neighbors@.contains(q) by {
                if q.y == y + 1 {
                    assert(neighbors@[found[0]] == q);
                } else if q.y + 1 == y {
                    assert(neighbors@[found[1]] == q);
                } else if q.x == x + 1 {
                    assert(neighbors@[found[2]] == q);
                } else {
                    assert(neighbors@[found[3]] == q);
                }
            }
        }
        neighbors
    }

    /// Whether a planner holding `keys_held` may step onto `q`.
    fn can_enter(q: &Position, view: &EnvironmentView, keys_held: &Vec<DoorKeyType>) -> (r: bool)
        requires
            view.wf(),
        ensures
            r == passable(view, keys_held@, *q),
    {
        if !view.terrain_grid.is_valid(q.x, q.y) {
            return false;
        }
        if view.agent_location_grid.get(q.x, q.y).unwrap().is_some() {
            return false;
        }
        match *view.terrain_grid.get(q.x, q.y).unwrap() {
            CellType::Wall => false,
            CellType::Door { open: false, door_type: Some(k) } => contains_key(keys_held, k),
            _ => true,
        }
    }
}

impl PlanningAgent {
    /// The key colours present in the agent's inventory.
    pub fn get_keys_held(&self, view: &EnvironmentView) -> (r: Vec<DoorKeyType>)
        ensures
            forall|k: DoorKeyType| r@.contains(k) <==> has_key(view.agent_state.inventory@, k),
            r@ == held_keys(view),
    {
        let inv = &view.agent_state.inventory;
        let mut keys: Vec<DoorKeyType> = Vec::new();
        let colours = [DoorKeyType::Red, DoorKeyType::Green, DoorKeyType::Blue, DoorKeyType::Yellow];
        let mut i: usize = 0;
        while i < 4
            invariant
                i <= 4,
                colours@ == seq![DoorKeyType::Red, DoorKeyType::Green, DoorKeyType::Blue, DoorKeyType::Yellow],
                forall|k: DoorKeyType| keys@.contains(k) <==> (has_key(inv@, k) && exists|j: int| 0 <= j < i && colours@[j] == k),
                keys@ == held_from(inv@, colours@.take(i as int)),
            decreases 4 - i,
        {
            let c = colours[i];
            let held = holds_key(inv, c);
            let ghost before = keys@;
            if held {
                keys.push(c);
            }
            proof {
                assert(colours@.take(i + 1).drop_last() =~= colours@.take(i as int));
                assert(colours@.take(i + 1).last() == c);
                if held {
                    assert(keys@ =~= before + seq![c]);
                } else {
                    assert(keys@ =~= before + Seq::<DoorKeyType>::empty());
                }
                assert forall|k: DoorKeyType| keys@.contains(k) <==> (has_key(inv@, k) && exists|j: int| 0 <= j < i + 1 && colours@[j] == k) by {
                    lemma_push_contains(before, c, k);
                    if k == c {
                        assert(colours@[i as int] == k);
                    }
                    if exists|j: int| 0 <= j < i + 1 && colours@[j] == k {
                        if k != c {
                            let j = choose|j: int| 0 <= j < i + 1 && colours@[j] == k;
                            assert(j < i);
                        }
                    }
                }
            }
            i = i + 1;
        }
        proof {
            assert(colours@.take(4) =~= colours@);
            assert forall|k: DoorKeyType| has_key(inv@, k) implies exists|j: int| 0 <= j < 4 && colours@[j] == k by {
                match k {
                    DoorKeyType::Red => assert(colours@[0] == k),
                    DoorKeyType::Green => assert(colours@[1] == k),
                    DoorKeyType::Blue => assert(colours@[2] == k),
                    DoorKeyType::Yellow => assert(colours@[3] == k),
                }
            }
        }
        keys
    }

    /// The positions holding `want`, in row-major order.
    fn positions_of(view: &EnvironmentView, want: Item) -> (r: Vec<Position>)
        requires
            view.wf(),
        ensures
            forall|p: Position| r@.contains(p) <==> on_grid(view, p) && item_at(view, p) == Some(want),
            row_major_sorted(r@),
    {
        let w = view.item_grid.width();
        let h = view.item_grid.height();
        let mut found: Vec<Position> = Vec::new();
        let mut y: usize = 0;
        while y < h
            invariant
                view.wf(),
                w == view.item_grid.spec_width(),
                h == view.item_grid.spec_height(),
                y <= h,
                forall|p: Position| #[trigger] found@.contains(p) <==> on_grid(view, p) && item_at(view, p) == Some(want) && p.y < y,
                row_major_sorted(found@),
            decreases h - y,
        {
            let mut x: usize = 0;
            while x < w
                invariant
                    view.wf(),
                    w == view.item_grid.spec_width(),
                    h == view.item_grid.spec_height(),
                    y < h,
                    x <= w,
                    forall|p: Position|
                        #[trigger] found@.contains(p) <==> on_grid(view, p) && item_at(view, p) == Some(want) && (p.y < y || (p.y == y
                            && p.x < x)),
                    row_major_sorted(found@),
                decreases w - x,
            {
                let it = *view.item_grid.get(x, y).unwrap();
                let ghost before = found@;
                let q = Position { x, y };
                if it == Some(want) {
                    found.push(q);
                    proof {
                        assert forall|i: int| 0 <= i < before.len() implies row_before(#[trigger] before[i], q) by {
                            let p = before[i];
                            assert(before.contains(p));
                            assert(p.y < y || (p.y == y && p.x < x));
                        }
                        assert(row_major_sorted(found@)) by {
                            assert forall|i: int, j: int| 0 <= i < j < found@.len() implies row_before(#[trigger] found@[i], #[trigger] found@[j]) by {
                                if j == before.len() {
                                    assert(found@[i] == before[i]);
                                } else {
                                    assert(found@[i] == before[i] && found@[j] == before[j]);
                                }
                            }
                        }
                    }
                }
                proof {
                    assert forall|p: Position| found@.contains(p) <==> on_grid(view, p) && item_at(view, p) == Some(want) && (p.y
                        < y || (p.y == y && p.x < x + 1)) by {
                        lemma_push_contains(before, q, p);
                    }
                }
                x = x + 1;
            }
            y = y + 1;
        }
        found
    }

    /// The positions of all chips on the ground.
    pub fn find_chips(&self, view: &EnvironmentView) -> (r: Vec<Position>)
        requires
            view.wf(),
        ensures
            forall|p: Position| r@.contains(p) <==> on_grid(view, p) && item_at(view, p) == Some(Item::Chip),
            row_major_sorted(r@),
    {
        Self::positions_of(view, Item::Chip)
    }

    /// The positions of all goals on the ground.
    pub fn find_goals(&self, view: &EnvironmentView) -> (r: Vec<Position>)
        requires
            view.wf(),
        ensures
            forall|p: Position| r@.contains(p) <==> on_grid(view, p) && item_at(view, p) == Some(Item::Goal),
            row_major_sorted(r@),
    {
        Self::positions_of(view, Item::Goal)
    }

    /// The positions of all keys on the ground, listed for each colour.
    pub fn find_keys(&self, view: &EnvironmentView) -> (r: Vec<(DoorKeyType, Vec<Position>)>)
        requires
            view.wf(),
        ensures
            r@.len() == 4,
            forall|i: int| 0 <= i < 4 ==> forall|p: Position| (#[trigger] r@[i].1@).contains(p) <==> on_grid(view, p)
                && item_at(view, p) == Some(Item::Key { key_type: r@[i].0 }),
            r@[0].0 == DoorKeyType::Red && r@[1].0 == DoorKeyType::Green,
            r@[2].0 == DoorKeyType::Blue && r@[3].0 == DoorKeyType::Yellow,
    {
        let mut out: Vec<(DoorKeyType, Vec<Position>)> = Vec::new();
        out.push((DoorKeyType::Red, Self::positions_of(view, Item::Key { key_type: DoorKeyType::Red })));
        out.push((DoorKeyType::Green, Self::positions_of(view, Item::Key { key_type: DoorKeyType::Green })));
        out.push((DoorKeyType::Blue, Self::positions_of(view, Item::Key { key_type: DoorKeyType::Blue })));
        out.push((DoorKeyType::Yellow, Self::positions_of(view, Item::Key { key_type: DoorKeyType::Yellow })));
        out
    }

    /// The shortest of the A* paths from `start` to each target, the first
    /// found among equally short ones; `None` when no target is reachable.
    pub fn plan_to_nearest_target(&self, start: Position, targets: &Vec<Position>, view: &EnvironmentView, keys_held: &Vec<DoorKeyType>) -> (r: Option<Vec<Position>>)
        requires
            view.wf(),
        ensures
            r matches Some(path) ==> is_walk(view, keys_held@, path@) && path@[0] == start && targets@.contains(path@.last()),
            r is Some <==> exists|i: int|
                0 <= i < targets@.len() && #[trigger] reachable(view, keys_held@, start, targets@[i]),
            exists|outs: Seq<Option<Seq<Position>>>|
                {
                    &&& outs.len() == targets@.len()
                    &&& forall|i: int| 0 <= i < outs.len() ==> search_outcome(view, keys_held@, start, targets@[i], #[trigger] outs[i])
                    &&& first_shortest(outs, opt_seq(r))
                },
    {
        let mut best: Option<Vec<Position>> = None;
        let ghost mut outs: Seq<Option<Seq<Position>>> = Seq::empty();
        let mut i: usize = 0;
        while i < targets.len()
            invariant
                view.wf(),
                i <= targets@.len(),
                outs.len() == i,
                forall|j: int| 0 <= j < outs.len() ==> search_outcome(view, keys_held@, start, targets@[j], #[trigger] outs[j]),
                first_shortest(outs, opt_seq(best)),
                best matches Some(path) ==> is_walk(view, keys_held@, path@) && path@[0] == start && targets@.contains(path@.last()),
                best is Some <==> exists|j: int|
                    0 <= j < i && #[trigger] reachable(view, keys_held@, start, targets@[j]),
            decreases targets.len() - i,
        {
            let t = targets[i];
            let found = self.a_star_path(start, t, view, keys_held);
            let ghost o = opt_seq(found);
            let take = match &found {
                None => false,
                Some(plan) => match &best {
                    None => true,
                    Some(b) => plan.len() < b.len(),
                },
            };
            proof {
                lemma_first_shortest_step(outs, opt_seq(best), o, take);
                outs = outs.push(o);
                assert(search_outcome(view, keys_held@, start, targets@[i as int], outs[i as int]));
            }
            match found {
                Some(plan) => {
                    if take {
                        assert(targets@[i as int] == plan@.last());
                        best = Some(plan);
                    }
                    assert(reachable(view, keys_held@, start, targets@[i as int]));
                },
                None => {},
            }
            i = i + 1;
        }
        best
    }

    /// The shortest A* path from `start` to a key on the ground of a colour not held.
    pub fn plan_to_nearest_reachable_key(&self, start: Position, view: &EnvironmentView, keys_held: &Vec<DoorKeyType>) -> (r: Option<Vec<Position>>)
        requires
            view.wf(),
        ensures
            r matches Some(path) ==> is_walk(view, keys_held@, path@) && path@[0] == start && unheld_key_at(view, keys_held@, path@.last()),
            r is Some <==> exists|p: Position|
                unheld_key_at(view, keys_held@, p) && #[trigger] reachable(view, keys_held@, start, p),
            exists|tried: Seq<Position>, outs: Seq<Option<Seq<Position>>>|
                {
                    &&& outs.len() == tried.len()
                    &&& forall|p: Position| #[trigger] tried.contains(p) <==> unheld_key_at(view, keys_held@, p)
                    &&& forall|i: int| 0 <= i < outs.len() ==> search_outcome(view, keys_held@, start, tried[i], #[trigger] outs[i])
                    &&& first_shortest(outs, opt_seq(r))
                },
    {
        let key_locations = self.find_keys(view);
        let mut best: Option<Vec<Position>> = None;
        let ghost mut tried: Seq<Position> = Seq::empty();
        let ghost mut outs: Seq<Option<Seq<Position>>> = Seq::empty();
        let mut i: usize = 0;
        while i < key_locations.len()
            invariant
                view.wf(),
                key_locations@.len() == 4,
                key_locations@[0].0 == DoorKeyType::Red && key_locations@[1].0 == DoorKeyType::Green,
                key_locations@[2].0 == DoorKeyType::Blue && key_locations@[3].0 == DoorKeyType::Yellow,
                i <= 4,
                forall|i: int| 0 <= i < 4 ==> forall|p: Position| (#[trigger] key_locations@[i].1@).contains(p) <==> on_grid(view, p)
                    && item_at(view, p) == Some(Item::Key { key_type: key_locations@[i].0 }),
                outs.len() == tried.len(),
                forall|p: Position| #[trigger] tried.contains(p) <==> unheld_key_at(view, keys_held@, p) && colour_rank(key_colour(item_at(view, p))) < i,
                forall|t: int| 0 <= t < outs.len() ==> search_outcome(view, keys_held@, start, tried[t], #[trigger] outs[t]),
                first_shortest(outs, opt_seq(best)),
                best matches Some(path) ==> is_walk(view, keys_held@, path@) && path@[0] == start && unheld_key_at(view, keys_held@, path@.last()),
                best is Some <==> exists|p: Position|
                    unheld_key_at(view, keys_held@, p) && #[trigger] reachable(view, keys_held@, start, p) && colour_rank(key_colour(item_at(view, p))) < i,
            decreases key_locations.len() - i,
        {
            let key_type = key_locations[i].0;
            assert(colour_rank(key_type) == i);
            if !contains_key(keys_held, key_type) {
                let positions = &key_locations[i].1;
                let mut j: usize = 0;
                while j < positions.len()
                    invariant
                        view.wf(),
                        !keys_held@.contains(key_type),
                        colour_rank(key_type) == i,
                        forall|p: Position| positions@.contains(p) <==> on_grid(view, p) && item_at(view, p) == Some(Item::Key { key_type }),
                        outs.len() == tried.len(),
                        forall|p: Position| #[trigger] tried.contains(p) <==> unheld_key_at(view, keys_held@, p) && (colour_rank(key_colour(item_at(view, p))) < i
                            || (key_colour(item_at(view, p)) == key_type && exists|jj: int| 0 <= jj < j && positions@[jj] == p)),
                        forall|t: int| 0 <= t < outs.len() ==> search_outcome(view, keys_held@, start, tried[t], #[trigger] outs[t]),
                        first_shortest(outs, opt_seq(best)),
                        best matches Some(path) ==> is_walk(view, keys_held@, path@) && path@[0] == start && unheld_key_at(view, keys_held@, path@.last()),
                        best is Some <==> exists|p: Position|
                            unheld_key_at(view, keys_held@, p) && #[trigger] reachable(view, keys_held@, start, p) && (colour_rank(
                                key_colour(item_at(view, p)),
                            ) < i || (key_colour(item_at(view, p)) == key_type && exists|jj: int| 0 <= jj < j && positions@[jj] == p)),
                    decreases positions.len() - j,
                {
                    let kp = positions[j];
                    assert(positions@.contains(kp));
                    let found = self.a_star_path(start, kp, view, keys_held);
                    let ghost o = opt_seq(found);
                    let take = match &found {
                        None => false,
                        Some(plan) => match &best {
                            None => true,
                            Some(b) => plan.len() < b.len(),
                        },
                    };
                    proof {
                        lemma_first_shortest_step(outs, opt_seq(best), o, take);
                        let tried0 = tried;
                        outs = outs.push(o);
                        tried = tried.push(kp);
                        assert(tried[tried.len() - 1] == kp);
                        assert forall|p: Position| #[trigger] tried.contains(p) <==> unheld_key_at(view, keys_held@, p) && (colour_rank(key_colour(item_at(view, p))) < i
                            || (key_colour(item_at(view, p)) == key_type && exists|jj: int| 0 <= jj < j + 1 && positions@[jj] == p)) by {
                            lemma_push_contains(tried0, kp, p);
                            if p == kp {
                                assert(positions@[j as int] == p);
                            }
                            if key_colour(item_at(view, p)) == key_type && exists|jj: int| 0 <= jj < j + 1 && positions@[jj] == p {
                                let jj = choose|jj: int| 0 <= jj < j + 1 && positions@[jj] == p;
                                if jj < j {
                                } else {
                                    assert(p == kp);
                                }
                            }
                        }
                        assert forall|t: int| 0 <= t < outs.len() implies search_outcome(view, keys_held@, start, tried[t], #[trigger] outs[t]) by {
                            if t < outs.len() - 1 {
                                assert(tried[t] == tried0[t]);
                            }
                        }
                    }
                    match found {
                        Some(plan) => {
                            if take {
                                best = Some(plan);
                            }
                            assert(reachable(view, keys_held@, start, kp));
                            assert(positions@[j as int] == kp);
                        },
                        None => {},
                    }
                    j = j + 1;
                }
                proof {
                    if exists|p: Position|
                        unheld_key_at(view, keys_held@, p) && #[trigger] reachable(view, keys_held@, start, p) && colour_rank(key_colour(item_at(view, p))) < i + 1 {
                        let p = choose|p: Position|
                            unheld_key_at(view, keys_held@, p) && #[trigger] reachable(view, keys_held@, start, p) && colour_rank(key_colour(item_at(view, p))) < i + 1;
                        if colour_rank(key_colour(item_at(view, p))) == i {
                            assert(positions@.contains(p));
                        }
                    }
                }
            } else {
                proof {
                    if exists|p: Position|
                        unheld_key_at(view, keys_held@, p) && #[trigger] reachable(view, keys_held@, start, p) && colour_rank(key_colour(item_at(view, p))) < i + 1 {
                        let p = choose|p: Position|
                            unheld_key_at(view, keys_held@, p) && #[trigger] reachable(view, keys_held@, start, p) && colour_rank(key_colour(item_at(view, p))) < i + 1;
                        assert(colour_rank(key_colour(item_at(view, p))) != i);
                    }
                }
            }
            i = i + 1;
        }
        best
    }

    /// The single-step action from `src` to `dst`.
    pub fn position_to_action(src: &Position, dst: &Position) -> (r: Action)
        ensures
            r == step_action(*src, *dst),
    {
        if dst.x == src.x && dst.y == src.y {
            Action::Wait
        } else if dst.x == src.x && src.y < usize::MAX && dst.y == src.y + 1 {
            Action::Move { dx: 0, dy: 1 }
        } else if dst.x == src.x && dst.y < usize::MAX && dst.y + 1 == src.y {
            Action::Move { dx: 0, dy: -1 }
        } else if dst.y == src.y && src.x < usize::MAX && dst.x == src.x + 1 {
            Action::Move { dx: 1, dy: 0 }
        } else if dst.y == src.y && dst.x < usize::MAX && dst.x + 1 == src.x {
            Action::Move { dx: -1, dy: 0 }
        } else {
            Action::Wait
        }
    }

    /// Queues a found path after its first two positions and returns the step to its second.
    fn adopt(&mut self, current: Position, plan: Vec<Position>) -> (r: Action)
        requires
            plan@.len() > 1,
            old(self).current_plan@.len() == 0,
        ensures
            r == step_action(current, plan@[1]),
            final(self).current_plan@ == plan@.subrange(2, plan@.len() as int),
            final(self).id == old(self).id,
    {
        let mut k: usize = 2;
        while k < plan.len()
            invariant
                2 <= k <= plan@.len(),
                self.current_plan@ == plan@.subrange(2, k as int),
                self.id == old(self).id,
            decreases plan.len() - k,
        {
            self.current_plan.push_back(plan[k]);
            proof {
                assert(self.current_plan@ =~= plan@.subrange(2, k + 1));
            }
            k = k + 1;
        }
        Self::position_to_action(&current, &plan[1])
    }

    /// One decision: continue the queued plan; else walk toward the nearest
    /// chip, or the goal when no chip remains, else toward the nearest key of
    /// a colour not held; else wait.
    #[verifier::rlimit(100)]
    pub fn plan_action(&mut self, view: &EnvironmentView) -> (r: Action)
        requires
            view.wf(),
        ensures
            final(self).id == old(self).id,
            planner_step(view, old(self).current_plan@, final(self).current_plan@, r),
    {
        let current = view.location;
        match self.current_plan.pop_front() {
            Some(next) => {
                proof {
                    assert(old(self).current_plan@.drop_first() =~= self.current_plan@);
                }
                return Self::position_to_action(&current, &next);
            },
            None => {},
        }
        let keys_held = self.get_keys_held(view);
        let ghost keys = held_keys(view);
        let chips = self.find_chips(view);
        let ghost first: int = if chips_remain(view) { 0 } else { 1 };
        let targets = if chips.len() > 0 {
            proof {
                assert(chips@.contains(chips@[0]));
                assert(item_at(view, chips@[0]) == Some(Item::Chip));
                assert(chips_remain(view));
                assert(first == 0);
                assert(forall|p: Position| chips@.contains(p) <==> target_kind(view, keys, first, p));
            }
            chips
        } else {
            proof {
                assert forall|p: Position| on_grid(view, p) implies #[trigger] item_at(view, p) != Some(Item::Chip) by {
                    if item_at(view, p) == Some(Item::Chip) {
                        assert(chips@.contains(p));
                    }
                }
                assert(!chips_remain(view));
                assert(first == 1);
            }
            let goals = self.find_goals(view);
            assert(forall|p: Position| goals@.contains(p) <==> target_kind(view, keys, first, p));
            goals
        };
        match self.plan_to_nearest_target(current, &targets, view, &keys_held) {
            Some(plan) => {
                if plan.len() > 1 {
                    proof {
                        assert(targets@.contains(plan@.last()));
                    }
                    let ghost pv = plan@;
                    let r = self.adopt(current, plan);
                    proof {
                        let outs = choose|outs: Seq<Option<Seq<Position>>>|
                            {
                                &&& outs.len() == targets@.len()
                                &&& forall|i: int| 0 <= i < outs.len() ==> search_outcome(view, keys_held@, current, targets@[i], #[trigger] outs[i])
                                &&& first_shortest(outs, Some(pv))
                            };
                        assert(nearest_choice(view, keys, first, targets@, outs, pv));
                        assert(is_walk(view, keys, pv));
                    }
                    return r;
                }
                proof {
                    assert(targets@.contains(plan@.last()));
                    assert(!class_open(view, keys, first));
                }
            },
            None => {
                proof {
                    if class_open(view, keys, first) {
                        let p = choose|p: Position| target_kind(view, keys, first, p) && #[trigger] reachable(view, keys, view.location, p);
                        assert(targets@.contains(p));
                        let i = choose|i: int| 0 <= i < targets@.len() && targets@[i] == p;
                        assert(reachable(view, keys_held@, current, targets@[i]));
                    }
                }
            },
        }
        match self.plan_to_nearest_reachable_key(current, view, &keys_held) {
            Some(plan) => {
                if plan.len() > 1 {
                    let ghost pv = plan@;
                    let r = self.adopt(current, plan);
                    proof {
                        let (tried, outs) = choose|tried: Seq<Position>, outs: Seq<Option<Seq<Position>>>|
                            {
                                &&& outs.len() == tried.len()
                                &&& forall|p: Position| #[trigger] tried.contains(p) <==> unheld_key_at(view, keys_held@, p)
                                &&& forall|i: int| 0 <= i < outs.len() ==> search_outcome(view, keys_held@, current, tried[i], #[trigger] outs[i])
                                &&& first_shortest(outs, Some(pv))
                            };
                        assert(nearest_choice(view, keys, 2, tried, outs, pv));
                        assert(is_walk(view, keys, pv));
                    }
                    return r;
                }
                proof {
                    assert(!class_open(view, keys, 2));
                }
            },
            None => {
                proof {
                    if class_open(view, keys, 2) {
                        let p = choose|p: Position| target_kind(view, keys, 2, p) && #[trigger] reachable(view, keys, view.location, p);
                        assert(unheld_key_at(view, keys_held@, p) && reachable(view, keys_held@, current, p));
                    }
                }
            },
        }
        Action::Wait
    }
}

impl Agent for PlanningAgent {
    fn id(&self) -> EntityId {
        self.id
    }

    open spec fn decides(&self, next: &Self, view: &EnvironmentView, a: Action) -> bool {
        next.id == self.id && planner_step(view, self.current_plan@, next.current_plan@, a)
    }

    fn get_action(&mut self, view: &EnvironmentView) -> Action {
        self.plan_action(view)
    }
}

/// The decision-makers an environment can hold.
#[derive(Debug)]
pub enum Behavior {
    Planning(PlanningAgent),
    Random(RandomWalker),
}

impl Behavior {
    pub open spec fn spec_id(&self) -> EntityId {
        match self {
            Behavior::Planning(a) => a.id,
            Behavior::Random(a) => a.id,
        }
    }

    /// The id of the agent inside.
    pub fn agent_id(&self) -> (r: EntityId)
        ensures
            r == self.spec_id(),
    {
        match self {
            Behavior::Planning(a) => a.id,
            Behavior::Random(a) => a.id,
        }
    }

    /// The action of the agent inside.
    pub fn decide(&mut self, view: &EnvironmentView) -> (r: Action)
        requires
            view.wf(),
        ensures
            final(self).spec_id() == old(self).spec_id(),
            old(self).decides(final(self), view, r),
    {
        match self {
            Behavior::Planning(a) => a.plan_action(view),
            Behavior::Random(a) => a.random_action(),
        }
    }
}

impl Agent for Behavior {
    fn id(&self) -> EntityId {
        self.agent_id()
    }

    open spec fn decides(&self, next: &Self, view: &EnvironmentView, a: Action) -> bool {
        match (self, next) {
            (Behavior::Planning(p), Behavior::Planning(q)) => p.decides(q, view, a),
            (Behavior::Random(p), Behavior::Random(q)) => p.decides(q, view, a),
            _ => false,
        }
    }

    fn get_action(&mut self, view: &EnvironmentView) -> Action {
        self.decide(view)
    }
}

#[verifier::external_type_specification]
#[verifier::external_body]
pub struct ExStdRng(StdRng);

/// Relies on `rand::SeedableRng::seed_from_u64`: a generator seeded from a number.
#[verifier::external_body]
fn seeded_rng(seed: u64) -> StdRng {
    StdRng::seed_from_u64(seed)
}

/// Relies on `rand::Rng::random_range` over the non-empty range `-1..=1`:
/// a value from that range.
#[verifier::external_body]
fn draw_offset(rng: &mut StdRng) -> (r: i8)
    ensures
        -1 <= r <= 1,
{
    rng.random_range(-1..=1)
}

/// The action for a random offset: `Wait` when both are zero, else a move by them.
pub open spec fn offset_action(dx: i8, dy: i8) -> Action {
    if dx == 0 && dy == 0 {
        Action::Wait
    } else {
        Action::Move { dx: dx as isize, dy: dy as isize }
    }
}

/// An agent that moves by a random offset in each direction.
#[derive(Debug)]
pub struct RandomWalker {
    pub id: EntityId,
    pub rng: StdRng,
}

impl RandomWalker {
    pub fn new(id: EntityId, seed: u64) -> (r: Self)
        ensures
            r.id == id,
    {
        RandomWalker { id, rng: seeded_rng(seed) }
    }

    /// The action for offsets `dx` and `dy` drawn from -1..=1.
    pub fn offsets_to_action(dx: i8, dy: i8) -> (r: Action)
        ensures
            r == offset_action(dx, dy),
    {
        if dx == 0 && dy == 0 {
            Action::Wait
        } else {
            Action::Move { dx: dx as isize, dy: dy as isize }
        }
    }

    /// Draws two offsets in -1..=1 and turns them into an action.
    pub fn random_action(&mut self) -> (r: Action)
        ensures
            final(self).id == old(self).id,
            exists|dx: i8, dy: i8| -1 <= dx <= 1 && -1 <= dy <= 1 && r == #[trigger] offset_action(dx, dy),
    {
        let dx = draw_offset(&mut self.rng);
        let dy = draw_offset(&mut self.rng);
        Self::offsets_to_action(dx, dy)
    }
}

impl Agent for RandomWalker {
    fn id(&self) -> EntityId {
        self.id
    }

    open spec fn decides(&self, next: &Self, view: &EnvironmentView, a: Action) -> bool {
        next.id == self.id && exists|dx: i8, dy: i8| -1 <= dx <= 1 && -1 <= dy <= 1 && a == #[trigger] offset_action(dx, dy)
    }

    fn get_action(&mut self, view: &EnvironmentView) -> Action {
        self.random_action()
    }
}

} // verus!
