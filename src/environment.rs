//! The world state and the rules that resolve agent actions against it.
use vstd::prelude::*;

use crate::agent::{Agent, Behavior};
pub use crate::loader::{load_environment_from_string, LoadError};
use crate::map::Grid;
use crate::search::{row_before, row_major_sorted};
use crate::{DoorKeyType, EntityId, Item, Position};

verus! {

/// The static kind of a cell.
#[derive(Debug, Clone, Copy, PartialEq, Eq, Structural)]
pub enum CellType {
    Floor,
    Wall,
    Door {
        open: bool,
        /// The key colour needed to open the door, if any.
        door_type: Option<DoorKeyType>,
    },
}

impl Default for CellType {
    fn default() -> (r: Self)
        ensures
            r == CellType::Floor,
    {
        CellType::Floor
    }
}

/// What an agent decides to do in one turn.
#[derive(Debug, Clone, Copy, PartialEq, Eq, Structural)]
pub enum Action {
    Wait,
    Move { dx: isize, dy: isize },
}

/// Why an action was refused.
#[derive(Debug, Clone, Copy, PartialEq, Eq, Structural)]
pub enum MoveError {
    AgentNotFound { id: EntityId },
    OutOfBounds,
    Wall,
    Occupied,
    MissingKey { key_type: DoorKeyType },
}

/// The key colour a cell needs: that of a door that needs one.
pub open spec fn required_key(c: CellType) -> Option<DoorKeyType> {
    match c {
        CellType::Door { door_type, .. } => door_type,
        _ => None,
    }
}

/// Why an agent or item could not be placed.
#[derive(Debug, Clone, Copy, PartialEq, Eq, Structural)]
pub enum PlacementError {
    OutOfBounds,
    ItemPresent,
    Occupied,
    Wall,
    ClosedDoor,
    IdInUse,
}

/// The outcome of one action.
#[derive(Debug, Clone, Copy, PartialEq, Eq, Structural)]
pub enum ActionResult {
    Success,
    Failure(MoveError),
    Win,
}

/// The state of one agent.
#[derive(Debug)]
pub struct AgentState {
    pub id: EntityId,
    pub position: Position,
    pub inventory: Vec<Item>,
}

/// The mathematical value of an agent's state.
pub struct AgentModel {
    pub id: EntityId,
    pub position: Position,
    pub inventory: Seq<Item>,
}

impl View for AgentState {
    type V = AgentModel;

    open spec fn view(&self) -> AgentModel {
        AgentModel { id: self.id, position: self.position, inventory: self.inventory@ }
    }
}

/// The world as sequences: three row-major grids and the agents in ascending id order.
pub struct World {
    pub terrain: Seq<CellType>,
    pub items: Seq<Option<Item>>,
    pub locs: Seq<Option<EntityId>>,
    pub agents: Seq<AgentModel>,
}

pub open spec fn cell_index(width: nat, p: Position) -> int {
    p.y * width + p.x
}

pub open spec fn pos_in_bounds(width: nat, height: nat, p: Position) -> bool {
    p.x < width && p.y < height
}

/// A cell inside a `width` by `height` grid has an index below `width * height`.
pub proof fn lemma_cell_index(width: nat, height: nat, p: Position)
    requires
        pos_in_bounds(width, height, p),
    ensures
        0 <= cell_index(width, p) < width * height,
{
    let x = p.x as int;
    let y = p.y as int;
    assert(0 <= y * width + x < width * height) by (nonlinear_arith)
        requires
            0 <= x < width,
            0 <= y < height,
    ;
}

pub open spec fn is_key_of(it: Item, k: DoorKeyType) -> bool {
    it == (Item::Key { key_type: k })
}

pub open spec fn has_key(inv: Seq<Item>, k: DoorKeyType) -> bool {
    exists|i: int| 0 <= i < inv.len() && is_key_of(#[trigger] inv[i], k)
}

/// `i` is the first position of a key of colour `k` in `inv`.
pub open spec fn is_first_key(inv: Seq<Item>, k: DoorKeyType, i: int) -> bool {
    &&& 0 <= i < inv.len()
    &&& is_key_of(inv[i], k)
    &&& forall|j: int| 0 <= j < i ==> !is_key_of(#[trigger] inv[j], k)
}

pub open spec fn first_key(inv: Seq<Item>, k: DoorKeyType) -> int {
    choose|i: int| is_first_key(inv, k, i)
}

/// How many keys of colour `k` the inventory holds.
pub open spec fn key_count(inv: Seq<Item>, k: DoorKeyType) -> nat
    decreases inv.len(),
{
    if inv.len() == 0 {
        0
    } else {
        key_count(inv.drop_last(), k) + if is_key_of(inv.last(), k) { 1nat } else { 0nat }
    }
}

/// The inventory after stepping on a cell holding `item`: a chip is always
/// taken, a key only when none of its colour is held yet.
pub open spec fn pickup(inv: Seq<Item>, item: Option<Item>) -> Seq<Item> {
    match item {
        Some(Item::Chip) => inv.push(Item::Chip),
        Some(Item::Key { key_type }) => if has_key(inv, key_type) {
            inv
        } else {
            inv.push(Item::Key { key_type })
        },
        _ => inv,
    }
}

/// Whether stepping on a cell holding `item` removes it from the map.
pub open spec fn picks_up(inv: Seq<Item>, item: Option<Item>) -> bool {
    match item {
        Some(Item::Chip) => true,
        Some(Item::Key { key_type }) => !has_key(inv, key_type),
        _ => false,
    }
}

pub open spec fn agent_index(agents: Seq<AgentModel>, id: EntityId) -> int {
    choose|k: int| 0 <= k < agents.len() && agents[k].id == id
}

pub open spec fn has_agent(agents: Seq<AgentModel>, id: EntityId) -> bool {
    exists|k: int| 0 <= k < agents.len() && #[trigger] agents[k].id == id
}

/// The world after agent `k` goes from cell `o` to cell `t`, ending with inventory `inv`.
pub open spec fn relocate(w: World, k: int, o: int, t: int, p: Position, inv: Seq<Item>) -> World {
    World {
        locs: w.locs.update(o, None).update(t, Some(w.agents[k].id)),
        agents: w.agents.update(k, AgentModel { id: w.agents[k].id, position: p, inventory: inv }),
        ..w
    }
}

/// The world after agent `k` picks up what lies on cell `t` without moving.
pub open spec fn after_pickup(w: World, k: int, t: int) -> World {
    let a = w.agents[k];
    World {
        items: if picks_up(a.inventory, w.items[t]) {
            w.items.update(t, None)
        } else {
            w.items
        },
        agents: w.agents.update(
            k,
            AgentModel { id: a.id, position: a.position, inventory: pickup(a.inventory, w.items[t]) },
        ),
        ..w
    }
}

/// The result of a move of agent `k` to the in-bounds cell `p`. A goal wins
/// at once unless another agent stands on it. Otherwise an item on the cell
/// is picked up first and stays picked up even when the terrain then refuses
/// the move; a locked door opens, for good, by spending one matching key.
pub open spec fn move_to(w: World, width: nat, k: int, p: Position) -> (World, ActionResult) {
    let a = w.agents[k];
    let o = cell_index(width, a.position);
    let t = cell_index(width, p);
    if w.items[t] == Some(Item::Goal) {
        if w.locs[t].is_some() && w.locs[t] != Some(a.id) {
            (w, ActionResult::Failure(MoveError::Occupied))
        } else {
            (relocate(w, k, o, t, p, a.inventory), ActionResult::Win)
        }
    } else {
        let w1 = after_pickup(w, k, t);
        let inv1 = w1.agents[k].inventory;
        match w.terrain[t] {
            CellType::Wall => (w1, ActionResult::Failure(MoveError::Wall)),
            CellType::Door { open: false, door_type: Some(kt) } => if w.locs[t].is_some() {
                (w1, ActionResult::Failure(MoveError::Occupied))
            } else if !has_key(inv1, kt) {
                (w1, ActionResult::Failure(MoveError::MissingKey { key_type: kt }))
            } else {
                (
                    relocate(
                        World {
                            terrain: w.terrain.update(t, CellType::Door { open: true, door_type: Some(kt) }),
                            ..w1
                        },
                        k,
                        o,
                        t,
                        p,
                        inv1.remove(first_key(inv1, kt)),
                    ),
                    ActionResult::Success,
                )
            },
            CellType::Door { open: false, door_type: None } => if w.locs[t].is_some() {
                (w1, ActionResult::Failure(MoveError::Occupied))
            } else {
                (
                    relocate(
                        World { terrain: w.terrain.update(t, CellType::Door { open: true, door_type: None }), ..w1 },
                        k,
                        o,
                        t,
                        p,
                        inv1,
                    ),
                    ActionResult::Success,
                )
            },
            _ => if w.locs[t].is_some() {
                (w1, ActionResult::Failure(MoveError::Occupied))
            } else {
                (relocate(w1, k, o, t, p, inv1), ActionResult::Success)
            },
        }
    }
}

/// The world and result after agent `id` performs `action`.
pub open spec fn step_world(w: World, width: nat, height: nat, id: EntityId, action: Action) -> (World, ActionResult) {
    if !has_agent(w.agents, id) {
        (w, ActionResult::Failure(MoveError::AgentNotFound { id }))
    } else {
        let k = agent_index(w.agents, id);
        match action {
            Action::Wait => (w, ActionResult::Success),
            Action::Move { dx, dy } => {
                let pos = w.agents[k].position;
                let tx = pos.x + dx;
                let ty = pos.y + dy;
                if 0 <= tx < width && 0 <= ty < height {
                    move_to(w, width, k, Position { x: tx as usize, y: ty as usize })
                } else {
                    (w, ActionResult::Failure(MoveError::OutOfBounds))
                }
            },
        }
    }
}

/// A read-only snapshot of the world for one agent's decision.
#[derive(Debug)]
pub struct EnvironmentView<'a> {
    pub agent_state: &'a AgentState,
    pub location: Position,
    pub terrain_grid: &'a Grid<CellType>,
    pub item_grid: &'a Grid<Option<Item>>,
    pub agent_location_grid: &'a Grid<Option<EntityId>>,
}

impl<'a> EnvironmentView<'a> {
    /// The three grids share one shape and the viewer stands inside it.
    pub open spec fn wf(&self) -> bool {
        &&& self.terrain_grid.wf()
        &&& self.item_grid.wf()
        &&& self.agent_location_grid.wf()
        &&& self.item_grid.same_shape(self.terrain_grid)
        &&& self.agent_location_grid.same_shape(self.terrain_grid)
        &&& self.location == self.agent_state.position
        &&& self.terrain_grid.in_bounds(self.location.x as int, self.location.y as int)
    }
}

/// The simulation: terrain, items, agent occupancy, and the agents in ascending id order.
pub struct Environment {
    pub terrain: Grid<CellType>,
    pub items: Grid<Option<Item>>,
    pub agent_locations: Grid<Option<EntityId>>,
    pub agents: Vec<AgentState>,
    pub agent_behaviors: Vec<Behavior>,
    pub next_entity_id: EntityId,
}

/// The target coordinate `c + d`, if it lies in `0..bound`.
fn offset(c: usize, d: isize, bound: usize) -> (r: Option<usize>)
    ensures
        r == (if 0 <= c + d < bound { Some((c + d) as usize) } else { None::<usize> }),
{
    if d >= 0 {
        let du = d as usize;
        if c < bound && du < bound - c {
            Some(c + du)
        } else {
            None
        }
    } else {
        let du = (-(d + 1)) as usize + 1;
        if du <= c && c - du < bound {
            Some(c - du)
        } else {
            None
        }
    }
}

/// Whether the inventory holds a key of colour `k`.
pub fn holds_key(inv: &Vec<Item>, k: DoorKeyType) -> (r: bool)
    ensures
        r == has_key(inv@, k),
{
    let mut i: usize = 0;
    while i < inv.len()
        invariant
            i <= inv.len(),
            forall|j: int| 0 <= j < i ==> !is_key_of(#[trigger] inv@[j], k),
        decreases inv.len() - i,
    {
        match inv[i] {
            Item::Key { key_type } => {
                if key_type == k {
                    return true;
                }
            },
            _ => {},
        }
        i = i + 1;
    }
    false
}

/// The position of the first key of colour `k` in the inventory.
fn first_key_index(inv: &Vec<Item>, k: DoorKeyType) -> (r: Option<usize>)
    ensures
        r.is_some() == has_key(inv@, k),
        r.is_some() ==> r.unwrap() == first_key(inv@, k) && r.unwrap() < inv.len(),
{
    let mut i: usize = 0;
    while i < inv.len()
        invariant
            i <= inv.len(),
            forall|j: int| 0 <= j < i ==> !is_key_of(#[trigger] inv@[j], k),
        decreases inv.len() - i,
    {
        match inv[i] {
            Item::Key { key_type } => {
                if key_type == k {
                    proof {
                        lemma_first_key_unique(inv@, k, i as int);
                    }
                    return Some(i);
                }
            },
            _ => {},
        }
        i = i + 1;
    }
    None
}

proof fn lemma_first_key_unique(inv: Seq<Item>, k: DoorKeyType, i: int)
    requires
        is_first_key(inv, k, i),
    ensures
        first_key(inv, k) == i,
{
    let j = first_key(inv, k);
    assert(is_first_key(inv, k, j));
    if j < i {
        assert(!is_key_of(inv[j], k));
    } else if i < j {
        assert(!is_key_of(inv[i], k));
    }
}

impl Environment {
    pub open spec fn world(&self) -> World {
        World {
            terrain: self.terrain@,
            items: self.items@,
            locs: self.agent_locations@,
            agents: self.agents@.map_values(|a: AgentState| a@),
        }
    }

    pub open spec fn spec_width(&self) -> nat {
        self.terrain.spec_width()
    }

    pub open spec fn spec_height(&self) -> nat {
        self.terrain.spec_height()
    }

    /// The environment's invariant.
    pub open spec fn wf(&self) -> bool {
        &&& self.terrain.wf()
        &&& self.items.wf()
        &&& self.agent_locations.wf()
        &&& self.items.same_shape(&self.terrain)
        &&& self.agent_locations.same_shape(&self.terrain)
        &&& world_wf(self.world(), self.spec_width(), self.spec_height())
        &&& self.agent_behaviors.len() == self.agents.len()
        &&& forall|k: int| 0 <= k < self.agents.len() ==> (#[trigger] self.agent_behaviors@[k]).spec_id() == self.agents@[k].id
        &&& forall|k: int| 0 <= k < self.agents.len() ==> (#[trigger] self.agents@[k]).id < self.next_entity_id
    }

    /// What stays fixed across actions: grid shapes, behaviours and the id counter.
    pub open spec fn same_frame(&self, other: &Environment) -> bool {
        &&& self.terrain.same_shape(&other.terrain)
        &&& self.items.same_shape(&other.items)
        &&& self.agent_locations.same_shape(&other.agent_locations)
        &&& self.agent_behaviors@ == other.agent_behaviors@
        &&& self.next_entity_id == other.next_entity_id
    }

    /// Creates an environment of all-floor cells with no items and no agents.
    pub fn new(width: usize, height: usize) -> (r: Self)
        requires
            width * height <= usize::MAX,
        ensures
            r.wf(),
            r.spec_width() == width,
            r.spec_height() == height,
            forall|i: int| 0 <= i < width * height ==> r.terrain@[i] == CellType::Floor,
            forall|i: int| 0 <= i < width * height ==> r.items@[i].is_none(),
            forall|i: int| 0 <= i < width * height ==> r.agent_locations@[i].is_none(),
            r.agents@.len() == 0,
            r.agent_behaviors@.len() == 0,
            r.next_entity_id == 0,
    {
        let r = Environment {
            terrain: Grid::filled(width, height, CellType::Floor),
            items: Grid::filled(width, height, None),
            agent_locations: Grid::filled(width, height, None),
            agents: Vec::new(),
            agent_behaviors: Vec::new(),
            next_entity_id: 0,
        };
        assert(r.world().agents =~= Seq::<AgentModel>::empty());
        r
    }

    /// Hands out the next unused agent id.
    pub fn reserve_entity_id(&mut self) -> (r: EntityId)
        requires
            old(self).wf(),
            old(self).next_entity_id < usize::MAX,
        ensures
            r == old(self).next_entity_id,
            final(self).next_entity_id == old(self).next_entity_id + 1,
            final(self).world() == old(self).world(),
            final(self).wf(),
            final(self).terrain.same_shape(&old(self).terrain),
            final(self).agent_behaviors@ == old(self).agent_behaviors@,
    {
        let id = self.next_entity_id;
        self.next_entity_id = self.next_entity_id + 1;
        id
    }

    /// Puts `item` on the ground at `position`.
    pub fn add_item(&mut self, position: Position, item: Item) -> (r: Result<(), PlacementError>)
        requires
            old(self).wf(),
        ensures
            final(self).wf(),
            final(self).same_frame(old(self)),
            ({
                let w = old(self).world();
                let t = cell_index(old(self).spec_width(), position);
                if !pos_in_bounds(old(self).spec_width(), old(self).spec_height(), position) {
                    r == Err::<(), PlacementError>(PlacementError::OutOfBounds) && final(self).world() == w
                } else if w.items[t].is_some() {
                    r == Err::<(), PlacementError>(PlacementError::ItemPresent) && final(self).world() == w
                } else if w.locs[t].is_some() {
                    r == Err::<(), PlacementError>(PlacementError::Occupied) && final(self).world() == w
                } else if w.terrain[t] == CellType::Wall {
                    r == Err::<(), PlacementError>(PlacementError::Wall) && final(self).world() == w
                } else {
                    r is Ok && final(self).world() == World { items: w.items.update(t, Some(item)), ..w }
                }
            }),
    {
        let ghost w = self.world();
        if !self.terrain.is_valid(position.x, position.y) {
            return Err(PlacementError::OutOfBounds);
        }
        proof {
            lemma_cell_index(self.spec_width(), self.spec_height(), position);
        }
        if self.items.get(position.x, position.y).unwrap().is_some() {
            return Err(PlacementError::ItemPresent);
        }
        if self.agent_locations.get(position.x, position.y).unwrap().is_some() {
            return Err(PlacementError::Occupied);
        }
        match *self.terrain.get(position.x, position.y).unwrap() {
            CellType::Wall => {
                return Err(PlacementError::Wall);
            },
            _ => {},
        }
        let _ = self.items.set(position.x, position.y, Some(item));
        proof {
            let w2 = self.world();
            assert forall|i: int| 0 <= i < w2.locs.len() && (#[trigger] w2.locs[i]).is_some() implies exists|j: int|
                0 <= j < w2.agents.len() && w2.agents[j].id == w2.locs[i].unwrap() && cell_index(self.spec_width(), #[trigger] w2.agents[j].position) == i by {
                let j = choose|j: int|
                    0 <= j < w.agents.len() && w.agents[j].id == w.locs[i].unwrap() && cell_index(self.spec_width(), #[trigger] w.agents[j].position) == i;
                assert(w2.agents[j] == w.agents[j]);
            }
        }
        Ok(())
    }

    /// Registers an agent with `behavior` at `position` holding `initial_inventory`.
    #[verifier::rlimit(100)]
    pub fn add_agent(&mut self, position: Position, behavior: Behavior, initial_inventory: Vec<Item>) -> (r: Result<EntityId, PlacementError>)
        requires
            old(self).wf(),
            behavior.spec_id() < usize::MAX,
        ensures
            final(self).wf(),
            ({
                let w = old(self).world();
                let id = behavior.spec_id();
                let t = cell_index(old(self).spec_width(), position);
                let fail = if !pos_in_bounds(old(self).spec_width(), old(self).spec_height(), position) {
                    Some(PlacementError::OutOfBounds)
                } else if w.locs[t].is_some() {
                    Some(PlacementError::Occupied)
                } else if w.terrain[t] == CellType::Wall {
                    Some(PlacementError::Wall)
                } else if w.terrain[t] matches CellType::Door { open: false, .. } {
                    Some(PlacementError::ClosedDoor)
                } else if has_agent(w.agents, id) {
                    Some(PlacementError::IdInUse)
                } else {
                    None
                };
                &&& final(self).terrain.same_shape(&old(self).terrain)
                &&& fail matches Some(e) ==> r == Err::<EntityId, PlacementError>(e) && *final(self) == *old(self)
                &&& fail is None ==> {
                    &&& r == Ok::<EntityId, PlacementError>(id)
                    &&& final(self).next_entity_id == if old(self).next_entity_id > id { old(self).next_entity_id } else { (id + 1) as usize }
                    &&& exists|j: int|
                        0 <= j <= w.agents.len() && final(self).world() == World {
                            locs: w.locs.update(t, Some(id)),
                            agents: w.agents.insert(j, AgentModel { id, position, inventory: initial_inventory@ }),
                            ..w
                        }
                }
            }),
    {
        let ghost w = self.world();
        let ghost width = self.spec_width();
        let ghost height = self.spec_height();
        let id = behavior.agent_id();
        if !self.terrain.is_valid(position.x, position.y) {
            return Err(PlacementError::OutOfBounds);
        }
        proof {
            lemma_cell_index(width, height, position);
        }
        if self.agent_locations.get(position.x, position.y).unwrap().is_some() {
            return Err(PlacementError::Occupied);
        }
        match *self.terrain.get(position.x, position.y).unwrap() {
            CellType::Wall => {
                return Err(PlacementError::Wall);
            },
            CellType::Door { open: false, .. } => {
                return Err(PlacementError::ClosedDoor);
            },
            _ => {},
        }
        if self.find_agent(id).is_some() {
            return Err(PlacementError::IdInUse);
        }
        let mut j: usize = 0;
        while j < self.agents.len() && self.agents[j].id < id
            invariant
                j <= self.agents.len(),
                self.wf(),
                w == self.world(),
                forall|i: int| 0 <= i < j ==> (#[trigger] self.agents@[i]).id < id,
            decreases self.agents.len() - j,
        {
            j = j + 1;
        }
        proof {
            assert forall|i: int| j <= i < w.agents.len() implies id < #[trigger] w.agents[i].id by {
                assert(w.agents[i].id != id);
                if i > j {
                    assert(w.agents[j as int].id < w.agents[i].id);
                }
            }
        }
        let st = AgentState { id, position, inventory: initial_inventory };
        let ghost a = st@;
        let _ = self.agent_locations.set(position.x, position.y, Some(id));
        self.agents.insert(j, st);
        self.agent_behaviors.insert(j, behavior);
        if self.next_entity_id <= id {
            self.next_entity_id = id + 1;
        }
        proof {
            assert(self.world().agents =~= w.agents.insert(j as int, a));
            lemma_insert_agent_wf(w, width, height, j as int, a);
            assert forall|k: int| 0 <= k < self.agents.len() implies (#[trigger] self.agent_behaviors@[k]).spec_id() == self.agents@[k].id by {
                if k < j {
                } else if k > j {
                    assert(self.agent_behaviors@[k] == old(self).agent_behaviors@[k - 1]);
                    assert(self.agents@[k] == old(self).agents@[k - 1]);
                }
            }
            assert forall|k: int| 0 <= k < self.agents.len() implies (#[trigger] self.agents@[k]).id < self.next_entity_id by {
                if k > j {
                    assert(self.agents@[k] == old(self).agents@[k - 1]);
                }
            }
        }
        Ok(id)
    }

    /// Runs one turn: each agent in ascending id order decides on a view of
    /// the current world and its action is applied at once; a win ends the
    /// turn, and failed actions are passed over.
    #[verifier::rlimit(100)]
    pub fn process_turn(&mut self) -> (r: ActionResult)
        requires
            old(self).wf(),
        ensures
            final(self).wf(),
            final(self).same_frame_but_behaviors(old(self)),
            r == ActionResult::Success || r == ActionResult::Win,
            exists|acts: Seq<Action>, m: int| #[trigger] turn_outcome(old(self), final(self), r, acts, m),
    {
        let ghost w0 = self.world();
        let ghost width = self.spec_width();
        let ghost height = self.spec_height();
        let ghost n = self.agents@.len();
        let ghost bs0 = self.agent_behaviors@;
        let ghost mut acts: Seq<Action> = Seq::empty();
        let mut k: usize = 0;
        while k < self.agents.len()
            invariant
                self.wf(),
                self.same_frame_but_behaviors(old(self)),
                self.agents@.len() == n,
                n == old(self).agents@.len(),
                w0 == old(self).world(),
                bs0 == old(self).agent_behaviors@,
                width == old(self).spec_width(),
                height == old(self).spec_height(),
                width == self.spec_width(),
                height == self.spec_height(),
                k <= n,
                acts.len() == k,
                self.world() == prefix_world(w0, width, height, acts, k as int),
                forall|j: int| 0 <= j < k ==> prefix_result(w0, width, height, acts, j) != ActionResult::Win,
                forall|j: int|
                    0 <= j < k ==> decides_on(
                        bs0[j],
                        #[trigger] self.agent_behaviors@[j],
                        prefix_world(w0, width, height, acts, j),
                        width,
                        height,
                        j,
                        acts[j],
                    ),
                forall|j: int| k <= j < n ==> #[trigger] self.agent_behaviors@[j] == bs0[j],
            decreases self.agents.len() - k,
        {
            let ghost bs = self.agent_behaviors@;
            let ghost wk = self.world();
            let mut behavior = self.agent_behaviors.remove(k);
            let action = {
                let st = &self.agents[k];
                assert(self.world().agents[k as int] == st@);
                assert(pos_in_bounds(self.spec_width(), self.spec_height(), self.world().agents[k as int].position));
                let view = EnvironmentView {
                    agent_state: st,
                    location: st.position,
                    terrain_grid: &self.terrain,
                    item_grid: &self.items,
                    agent_location_grid: &self.agent_locations,
                };
                let a = behavior.decide(&view);
                proof {
                    assert(view_matches(&view, wk, width, height, k as int));
                    assert(decides_on(bs[k as int], behavior, wk, width, height, k as int, a));
                }
                a
            };
            self.agent_behaviors.insert(k, behavior);
            proof {
                assert forall|i: int| 0 <= i < self.agents.len() implies (#[trigger] self.agent_behaviors@[i]).spec_id()
                    == self.agents@[i].id by {
                    if i != k {
                        assert(self.agent_behaviors@[i] == bs[i]);
                    }
                }
            }
            let id = self.agents[k].id;
            assert(wk.agents[k as int].id == id);
            let r = self.process_action(id, action);
            proof {
                let acts1 = acts.push(action);
                lemma_prefix_stable(w0, width, height, acts, acts1, k as int);
                assert forall|j: int| 0 <= j < k implies prefix_world(w0, width, height, acts1, j) == prefix_world(w0, width, height, acts, j)
                    && prefix_result(w0, width, height, acts1, j) == prefix_result(w0, width, height, acts, j) by {
                    lemma_prefix_stable(w0, width, height, acts, acts1, j);
                    lemma_prefix_stable(w0, width, height, acts, acts1, j + 1);
                }
                assert(acts1[k as int] == action);
                assert(prefix_world(w0, width, height, acts1, k + 1) == self.world());
                assert(prefix_result(w0, width, height, acts1, k as int) == r);
                assert forall|j: int| 0 <= j < k + 1 implies decides_on(
                    bs0[j],
                    #[trigger] self.agent_behaviors@[j],
                    prefix_world(w0, width, height, acts1, j),
                    width,
                    height,
                    j,
                    acts1[j],
                ) by {
                    if j < k {
                        assert(self.agent_behaviors@[j] == bs[j]);
                        assert(acts1[j] == acts[j]);
                    } else {
                        assert(self.agent_behaviors@[j] == behavior);
                    }
                }
                assert forall|j: int| k + 1 <= j < n implies #[trigger] self.agent_behaviors@[j] == bs0[j] by {
                    assert(self.agent_behaviors@[j] == bs[j]);
                }
                acts = acts1;
            }
            if r == ActionResult::Win {
                proof {
                    let rest = Seq::new((n - k - 1) as nat, |i: int| Action::Wait);
                    let full = acts + rest;
                    lemma_prefix_stable(w0, width, height, acts, full, k + 1);
                    lemma_prefix_stable(w0, width, height, acts, full, k as int);
                    assert forall|j: int| 0 <= j < k + 1 implies prefix_world(w0, width, height, full, j) == prefix_world(w0, width, height, acts, j)
                        && prefix_result(w0, width, height, full, j) == prefix_result(w0, width, height, acts, j) && full[j] == acts[j] by {
                        lemma_prefix_stable(w0, width, height, acts, full, j);
                        lemma_prefix_stable(w0, width, height, acts, full, j + 1);
                    }
                    assert(turn_outcome(old(self), self, ActionResult::Win, full, k + 1));
                }
                return ActionResult::Win;
            }
            k = k + 1;
        }
        proof {
            assert(turn_outcome(old(self), self, ActionResult::Success, acts, n as int));
        }
        ActionResult::Success
    }

    pub fn terrain(&self) -> (r: &Grid<CellType>)
        ensures
            r == &self.terrain,
    {
        &self.terrain
    }

    pub fn items(&self) -> (r: &Grid<Option<Item>>)
        ensures
            r == &self.items,
    {
        &self.items
    }

    pub fn agent_locations(&self) -> (r: &Grid<Option<EntityId>>)
        ensures
            r == &self.agent_locations,
    {
        &self.agent_locations
    }

    /// The state of agent `agent_id`, if registered.
    pub fn get_agent_state(&self, agent_id: EntityId) -> (r: Option<&AgentState>)
        requires
            self.wf(),
        ensures
            r.is_some() == has_agent(self.world().agents, agent_id),
            r matches Some(st) ==> st@ == self.world().agents[agent_index(self.world().agents, agent_id)],
    {
        match self.find_agent(agent_id) {
            Some(k) => Some(&self.agents[k]),
            None => None,
        }
    }

    /// The positions of closed doors whose key colour is `type_filter`
    /// (doors that need no key for `None`), in row-major order.
    pub fn get_door_locations(&self, type_filter: Option<DoorKeyType>) -> (r: Vec<Position>)
        requires
            self.wf(),
        ensures
            forall|p: Position|
                r@.contains(p) <==> pos_in_bounds(self.spec_width(), self.spec_height(), p) && self.terrain.spec_at(p.x as int, p.y as int)
                    == (CellType::Door { open: false, door_type: type_filter }),
            row_major_sorted(r@),
    {
        let w = self.terrain.width();
        let h = self.terrain.height();
        let want = CellType::Door { open: false, door_type: type_filter };
        let mut found: Vec<Position> = Vec::new();
        let mut y: usize = 0;
        while y < h
            invariant
                self.wf(),
                w == self.spec_width(),
                h == self.spec_height(),
                y <= h,
                row_major_sorted(found@),
                forall|p: Position|
                    #[trigger] found@.contains(p) <==> pos_in_bounds(w as nat, h as nat, p) && self.terrain.spec_at(p.x as int, p.y as int) == want
                        && p.y < y,
            decreases h - y,
        {
            let mut x: usize = 0;
            while x < w
                invariant
                    self.wf(),
                    w == self.spec_width(),
                    h == self.spec_height(),
                    y < h,
                    x <= w,
                    row_major_sorted(found@),
                    forall|p: Position|
                        #[trigger] found@.contains(p) <==> pos_in_bounds(w as nat, h as nat, p) && self.terrain.spec_at(p.x as int, p.y as int)
                            == want && (p.y < y || (p.y == y && p.x < x)),
                decreases w - x,
            {
                let c = *self.terrain.get(x, y).unwrap();
                let ghost before = found@;
                let q = Position { x, y };
                if c == want {
                    found.push(q);
                    proof {
                        assert forall|i: int, j: int| 0 <= i < j < found@.len() implies row_before(#[trigger] found@[i], #[trigger] found@[j]) by {
                            assert(found@[i] == before[i]);
                            assert(before.contains(before[i]));
                            if j < before.len() {
                                assert(found@[j] == before[j]);
                            }
                        }
                    }
                }
                proof {
                    assert forall|p: Position| found@.contains(p) <==> pos_in_bounds(w as nat, h as nat, p) && self.terrain.spec_at(
                        p.x as int,
                        p.y as int,
                    ) == want && (p.y < y || (p.y == y && p.x < x + 1)) by {
                        crate::agent::lemma_push_contains(before, q, p);
                    }
                }
                x = x + 1;
            }
            y = y + 1;
        }
        found
    }

    /// `p` is the first cell in row-major order whose item is a key of colour `k`.
    pub open spec fn is_first_key_cell(&self, k: DoorKeyType, p: Position) -> bool {
        &&& pos_in_bounds(self.spec_width(), self.spec_height(), p)
        &&& self.items.spec_at(p.x as int, p.y as int) == Some(Item::Key { key_type: k })
        &&& forall|q: Position|
            pos_in_bounds(self.spec_width(), self.spec_height(), q) && (q.y < p.y || (q.y == p.y && q.x < p.x))
                ==> #[trigger] self.items.spec_at(q.x as int, q.y as int) != Some(Item::Key { key_type: k })
    }

    /// No cell holds a key of colour `k`.
    pub open spec fn no_key_cell(&self, k: DoorKeyType) -> bool {
        forall|q: Position|
            pos_in_bounds(self.spec_width(), self.spec_height(), q) ==> #[trigger] self.items.spec_at(q.x as int, q.y as int)
                != Some(Item::Key { key_type: k })
    }

    /// The first position in row-major order holding a key of colour `type_to_find`.
    pub fn get_key_location(&self, type_to_find: DoorKeyType) -> (r: Option<Position>)
        requires
            self.wf(),
        ensures
            r matches Some(p) ==> self.is_first_key_cell(type_to_find, p),
            r is None ==> self.no_key_cell(type_to_find),
    {
        let w = self.items.width();
        let h = self.items.height();
        let want = Some(Item::Key { key_type: type_to_find });
        let mut y: usize = 0;
        while y < h
            invariant
                self.wf(),
                want == Some(Item::Key { key_type: type_to_find }),
                w == self.spec_width(),
                h == self.spec_height(),
                y <= h,
                forall|q: Position| pos_in_bounds(w as nat, h as nat, q) && q.y < y ==> #[trigger] self.items.spec_at(q.x as int, q.y as int) != want,
            decreases h - y,
        {
            let mut x: usize = 0;
            while x < w
                invariant
                    self.wf(),
                    want == Some(Item::Key { key_type: type_to_find }),
                    w == self.spec_width(),
                    h == self.spec_height(),
                    y < h,
                    x <= w,
                    forall|q: Position|
                        pos_in_bounds(w as nat, h as nat, q) && (q.y < y || (q.y == y && q.x < x)) ==> #[trigger] self.items.spec_at(
                            q.x as int,
                            q.y as int,
                        ) != want,
                decreases w - x,
            {
                let it = *self.items.get(x, y).unwrap();
                if it == want {
                    let p = Position { x, y };
                    assert forall|q: Position|
                        pos_in_bounds(self.spec_width(), self.spec_height(), q) && (q.y < p.y || (q.y == p.y && q.x < p.x))
                            implies #[trigger] self.items.spec_at(q.x as int, q.y as int) != Some(Item::Key { key_type: type_to_find }) by {
                        assert(pos_in_bounds(w as nat, h as nat, q) && (q.y < y || (q.y == y && q.x < x)));
                    }
                    return Some(p);
                }
                x = x + 1;
            }
            y = y + 1;
        }
        None
    }

    /// The first key on the ground that opens the door at `door_pos`, if
    /// that cell is a door that needs a key.
    pub fn get_corresponding_key_location(&self, door_pos: Position) -> (r: Option<Position>)
        requires
            self.wf(),
        ensures
            ({
                let needed = if pos_in_bounds(self.spec_width(), self.spec_height(), door_pos) {
                    required_key(self.terrain.spec_at(door_pos.x as int, door_pos.y as int))
                } else {
                    None
                };
                &&& needed is None ==> r is None
                &&& needed matches Some(k) ==> (r matches Some(p) ==> self.is_first_key_cell(k, p)) && (r is None ==> self.no_key_cell(k))
            }),
    {
        match self.terrain.get(door_pos.x, door_pos.y) {
            Some(CellType::Door { door_type: Some(required), .. }) => self.get_key_location(*required),
            _ => None,
        }
    }

    /// What a turn keeps fixed: grid shapes, the number of behaviours and the id counter.
    pub open spec fn same_frame_but_behaviors(&self, other: &Environment) -> bool {
        &&& self.terrain.same_shape(&other.terrain)
        &&& self.items.same_shape(&other.items)
        &&& self.agent_locations.same_shape(&other.agent_locations)
        &&& self.agent_behaviors@.len() == other.agent_behaviors@.len()
        &&& self.next_entity_id == other.next_entity_id
    }

    /// The index of agent `agent_id` in the agent list, if registered.
    fn find_agent(&self, agent_id: EntityId) -> (r: Option<usize>)
        requires
            self.wf(),
        ensures
            r.is_some() == has_agent(self.world().agents, agent_id),
            r.is_some() ==> r.unwrap() == agent_index(self.world().agents, agent_id)
                && r.unwrap() < self.agents.len(),
    {
        let ghost ag = self.world().agents;
        let mut k: usize = 0;
        while k < self.agents.len()
            invariant
                k <= self.agents.len(),
                self.wf(),
                ag == self.world().agents,
                forall|j: int| 0 <= j < k ==> self.agents@[j].id != agent_id,
            decreases self.agents.len() - k,
        {
            if self.agents[k].id == agent_id {
                proof {
                    assert(ag[k as int].id == agent_id);
                    assert(has_agent(ag, agent_id));
                    let c = agent_index(ag, agent_id);
                    assert(0 <= c < ag.len() && ag[c].id == agent_id);
                    lemma_ids_unique(ag, self.spec_width(), self.spec_height(), self.world(), c, k as int);
                }
                return Some(k);
            }
            k = k + 1;
        }
        proof {
            assert forall|j: int| 0 <= j < ag.len() implies #[trigger] ag[j].id != agent_id by {
                assert(self.agents@[j].id != agent_id);
            }
        }
        None
    }

    /// Moves the agent held in `st`, taken out of slot `k`, from its cell to `p`, and puts it back.
    fn relocate_agent(&mut self, k: usize, st: AgentState, p: Position)
        requires
            k <= old(self).agents.len(),
            old(self).agent_locations.wf(),
            old(self).agent_locations.in_bounds(st.position.x as int, st.position.y as int),
            old(self).agent_locations.in_bounds(p.x as int, p.y as int),
        ensures
            final(self).agents@ == old(self).agents@.insert(
                k as int,
                AgentState { id: st.id, position: p, inventory: st.inventory },
            ),
            final(self).agent_locations@ == old(self).agent_locations@.update(
                old(self).agent_locations.idx(st.position.x as int, st.position.y as int),
                None,
            ).update(old(self).agent_locations.idx(p.x as int, p.y as int), Some(st.id)),
            final(self).agent_locations.same_shape(&old(self).agent_locations),
            final(self).agent_locations.wf(),
            final(self).terrain == old(self).terrain,
            final(self).items == old(self).items,
            final(self).agent_behaviors == old(self).agent_behaviors,
            final(self).next_entity_id == old(self).next_entity_id,
    {
        let mut st = st;
        let _ = self.agent_locations.set(st.position.x, st.position.y, None);
        let _ = self.agent_locations.set(p.x, p.y, Some(st.id));
        st.position = p;
        self.agents.insert(k, st);
    }

    /// Resolves a move of the agent in slot `k` onto the in-bounds cell `p`.
    #[verifier::rlimit(100)]
    fn resolve_move(&mut self, k: usize, p: Position) -> (r: ActionResult)
        requires
            old(self).wf(),
            k < old(self).agents.len(),
            pos_in_bounds(old(self).spec_width(), old(self).spec_height(), p),
        ensures
            final(self).same_frame(old(self)),
            final(self).terrain.wf(),
            final(self).items.wf(),
            final(self).agent_locations.wf(),
            final(self).agents.len() == old(self).agents.len(),
            (final(self).world(), r) == move_to(old(self).world(), old(self).spec_width(), k as int, p),
    {
        let ghost w0 = self.world();
        let ghost width = self.spec_width();
        let ghost height = self.spec_height();
        let tx = p.x;
        let ty = p.y;
        let pos = self.agents[k].position;
        let agent_id = self.agents[k].id;
        proof {
            assert(w0.agents[k as int].position == pos);
            assert(w0.agents[k as int].id == agent_id);
        }
        let ghost t = cell_index(width, p);
        let ghost o = cell_index(width, pos);
        proof {
            lemma_cell_index(width, height, p);
            lemma_cell_index(width, height, pos);
        }
        let item: Option<Item> = *self.items.get(tx, ty).unwrap();
        let occupant: Option<EntityId> = *self.agent_locations.get(tx, ty).unwrap();
        let cell: CellType = *self.terrain.get(tx, ty).unwrap();
        let ghost a = w0.agents[k as int];
        if let Some(Item::Goal) = item {
            match occupant {
                Some(other) => {
                    if other != agent_id {
                        return ActionResult::Failure(MoveError::Occupied);
                    }
                },
                None => {},
            }
            let st = self.agents.remove(k);
            self.relocate_agent(k, st, p);
            proof {
                assert(self.agents@.map_values(|a: AgentState| a@) =~= relocate(w0, k as int, o, t, p, a.inventory).agents);
            }
            return ActionResult::Win;
        }
        let mut st = self.agents.remove(k);
        let ghost inv0 = st.inventory@;
        match item {
            Some(Item::Chip) => {
                st.inventory.push(Item::Chip);
                let _ = self.items.set(tx, ty, None);
            },
            Some(Item::Key { key_type }) => {
                if !holds_key(&st.inventory, key_type) {
                    st.inventory.push(Item::Key { key_type });
                    let _ = self.items.set(tx, ty, None);
                }
            },
            _ => {},
        }
        let ghost w1 = after_pickup(w0, k as int, t);
        assert(st.inventory@ == w1.agents[k as int].inventory);
        assert(self.items@ == w1.items);
        match cell {
            CellType::Wall => {
                self.agents.insert(k, st);
                proof {
                    assert(self.agents@.map_values(|a: AgentState| a@) =~= w1.agents);
                }
                ActionResult::Failure(MoveError::Wall)
            },
            CellType::Door { open: false, door_type: Some(kt) } => {
                if occupant.is_some() {
                    self.agents.insert(k, st);
                    proof {
                        assert(self.agents@.map_values(|a: AgentState| a@) =~= w1.agents);
                    }
                    ActionResult::Failure(MoveError::Occupied)
                } else {
                    match first_key_index(&st.inventory, kt) {
                        Some(i) => {
                            st.inventory.remove(i);
                            let _ = self.terrain.set(tx, ty, CellType::Door { open: true, door_type: Some(kt) });
                            self.relocate_agent(k, st, p);
                            proof {
                                assert(self.agents@.map_values(|a: AgentState| a@) =~= move_to(w0, width, k as int, p).0.agents);
                            }
                            ActionResult::Success
                        },
                        None => {
                            self.agents.insert(k, st);
                            proof {
                                assert(self.agents@.map_values(|a: AgentState| a@) =~= w1.agents);
                            }
                            ActionResult::Failure(MoveError::MissingKey { key_type: kt })
                        },
                    }
                }
            },
            CellType::Door { open: false, door_type: None } => {
                if occupant.is_some() {
                    self.agents.insert(k, st);
                    proof {
                        assert(self.agents@.map_values(|a: AgentState| a@) =~= w1.agents);
                    }
                    ActionResult::Failure(MoveError::Occupied)
                } else {
                    let _ = self.terrain.set(tx, ty, CellType::Door { open: true, door_type: None });
                    self.relocate_agent(k, st, p);
                    proof {
                        assert(self.agents@.map_values(|a: AgentState| a@) =~= move_to(w0, width, k as int, p).0.agents);
                    }
                    ActionResult::Success
                }
            },
            _ => {
                if occupant.is_some() {
                    self.agents.insert(k, st);
                    proof {
                        assert(self.agents@.map_values(|a: AgentState| a@) =~= w1.agents);
                    }
                    ActionResult::Failure(MoveError::Occupied)
                } else {
                    self.relocate_agent(k, st, p);
                    proof {
                        assert(self.agents@.map_values(|a: AgentState| a@) =~= move_to(w0, width, k as int, p).0.agents);
                    }
                    ActionResult::Success
                }
            },
        }
    }

    /// Applies one action of agent `agent_id` and reports the outcome.
    pub fn process_action(&mut self, agent_id: EntityId, action: Action) -> (r: ActionResult)
        requires
            old(self).wf(),
        ensures
            final(self).wf(),
            final(self).same_frame(old(self)),
            (final(self).world(), r) == step_world(
                old(self).world(),
                old(self).spec_width(),
                old(self).spec_height(),
                agent_id,
                action,
            ),
    {
        let ghost w0 = self.world();
        let ghost width = self.spec_width();
        let ghost height = self.spec_height();
        proof {
            lemma_step_preserves_wf(w0, width, height, agent_id, action);
        }
        let k = match self.find_agent(agent_id) {
            Some(k) => k,
            None => return ActionResult::Failure(MoveError::AgentNotFound { id: agent_id }),
        };
        let (dx, dy) = match action {
            Action::Wait => return ActionResult::Success,
            Action::Move { dx, dy } => (dx, dy),
        };
        let pos = self.agents[k].position;
        proof {
            assert(w0.agents[k as int].position == pos);
        }
        let tx = match offset(pos.x, dx, self.terrain.width()) {
            Some(v) => v,
            None => return ActionResult::Failure(MoveError::OutOfBounds),
        };
        let ty = match offset(pos.y, dy, self.terrain.height()) {
            Some(v) => v,
            None => return ActionResult::Failure(MoveError::OutOfBounds),
        };
        let p = Position { x: tx, y: ty };
        let ghost t = cell_index(width, p);
        let ghost o = cell_index(width, pos);
        proof {
            lemma_cell_index(width, height, p);
            lemma_cell_index(width, height, pos);
        }
        let r = self.resolve_move(k, p);
        proof {
            assert forall|j: int| 0 <= j < self.agents.len() implies (#[trigger] self.agents@[j]).id
                == self.world().agents[j].id && old(self).agents@[j].id == w0.agents[j].id by {}
        }
        r
    }
}

/// `view` shows the world `w` to agent `k`: the three grids hold the world's
/// sequences with the world's shape, and the agent's state and location are its own.
pub open spec fn view_matches(view: &EnvironmentView, w: World, width: nat, height: nat, k: int) -> bool {
    &&& view.wf()
    &&& view.terrain_grid.spec_width() == width
    &&& view.terrain_grid.spec_height() == height
    &&& view.terrain_grid@ == w.terrain
    &&& view.item_grid@ == w.items
    &&& view.agent_location_grid@ == w.locs
    &&& view.agent_state@ == w.agents[k]
}

/// Behaviour `b` may become `next` and choose `a` when agent `k` decides on world `w`.
pub open spec fn decides_on(b: Behavior, next: Behavior, w: World, width: nat, height: nat, k: int, a: Action) -> bool {
    exists|view: EnvironmentView| #[trigger] view_matches(&view, w, width, height, k) && b.decides(&next, &view, a)
}

/// The world after agents `0..j` have performed their actions in `acts`.
pub open spec fn prefix_world(w: World, width: nat, height: nat, acts: Seq<Action>, j: int) -> World
    decreases j,
{
    if j <= 0 {
        w
    } else {
        let before = prefix_world(w, width, height, acts, j - 1);
        step_world(before, width, height, before.agents[j - 1].id, acts[j - 1]).0
    }
}

/// The result of agent `j`'s action on the world left by agents `0..j`.
pub open spec fn prefix_result(w: World, width: nat, height: nat, acts: Seq<Action>, j: int) -> ActionResult {
    let before = prefix_world(w, width, height, acts, j);
    step_world(before, width, height, before.agents[j].id, acts[j]).1
}

/// What a turn did: agents `0..m` each decided on the world the earlier ones
/// left, with the view that world gives them, and had that action applied;
/// the behaviours after them are untouched; only the last of them may have
/// won; the result is `Win` exactly when it did, and otherwise every agent acted.
pub open spec fn turn_outcome(before: &Environment, after: &Environment, r: ActionResult, acts: Seq<Action>, m: int) -> bool {
    let w0 = before.world();
    let width = before.spec_width();
    let height = before.spec_height();
    let n = before.agents@.len() as int;
    &&& acts.len() == n
    &&& 0 <= m <= n
    &&& forall|j: int|
        0 <= j < m ==> decides_on(
            before.agent_behaviors@[j],
            #[trigger] after.agent_behaviors@[j],
            prefix_world(w0, width, height, acts, j),
            width,
            height,
            j,
            acts[j],
        )
    &&& forall|j: int| m <= j < n ==> #[trigger] after.agent_behaviors@[j] == before.agent_behaviors@[j]
    &&& forall|j: int| 0 <= j < m - 1 ==> #[trigger] prefix_result(w0, width, height, acts, j) != ActionResult::Win
    &&& after.world() == prefix_world(w0, width, height, acts, m)
    &&& (r == ActionResult::Win <==> m > 0 && prefix_result(w0, width, height, acts, m - 1) == ActionResult::Win)
    &&& (r != ActionResult::Win ==> m == n)
}

/// The worlds and results of the first `j` agents depend on their actions only.
proof fn lemma_prefix_stable(w: World, width: nat, height: nat, a: Seq<Action>, b: Seq<Action>, j: int)
    requires
        0 <= j <= a.len(),
        a.len() <= b.len(),
        forall|i: int| 0 <= i < a.len() ==> a[i] == b[i],
    ensures
        prefix_world(w, width, height, a, j) == prefix_world(w, width, height, b, j),
        j < a.len() ==> prefix_result(w, width, height, a, j) == prefix_result(w, width, height, b, j),
    decreases j,
{
    if j > 0 {
        lemma_prefix_stable(w, width, height, a, b, j - 1);
    }
}

/// The world's invariant: the grids have `width * height` cells, ids ascend,
/// each agent stands in bounds on a cell that holds its id and no other cell
/// holds an id without its agent standing there, and nothing lies or stands
/// on a wall.
pub open spec fn world_wf(w: World, width: nat, height: nat) -> bool {
    &&& w.terrain.len() == width * height
    &&& w.items.len() == width * height
    &&& w.locs.len() == width * height
    &&& forall|i: int, j: int| 0 <= i < j < w.agents.len() ==> w.agents[i].id < w.agents[j].id
    &&& forall|k: int|
        0 <= k < w.agents.len() ==> {
            &&& pos_in_bounds(width, height, #[trigger] w.agents[k].position)
            &&& w.locs[cell_index(width, w.agents[k].position)] == Some(w.agents[k].id)
            &&& w.terrain[cell_index(width, w.agents[k].position)] != CellType::Wall
        }
    &&& forall|i: int|
        0 <= i < w.locs.len() && (#[trigger] w.locs[i]).is_some() ==> exists|k: int|
            0 <= k < w.agents.len() && w.agents[k].id == w.locs[i].unwrap() && cell_index(
                width,
                #[trigger] w.agents[k].position,
            ) == i
    &&& forall|i: int| 0 <= i < w.items.len() && (#[trigger] w.items[i]).is_some() ==> w.terrain[i] != CellType::Wall
}

#[verifier::rlimit(100)]
proof fn lemma_relocate_wf(w: World, width: nat, height: nat, k: int, p: Position, inv: Seq<Item>)
    requires
        world_wf(w, width, height),
        0 <= k < w.agents.len(),
        pos_in_bounds(width, height, p),
        w.locs[cell_index(width, p)] is None || w.locs[cell_index(width, p)] == Some(w.agents[k].id),
        w.terrain[cell_index(width, p)] != CellType::Wall,
    ensures
        world_wf(relocate(w, k, cell_index(width, w.agents[k].position), cell_index(width, p), p, inv), width, height),
{
    let o = cell_index(width, w.agents[k].position);
    let t = cell_index(width, p);
    let id = w.agents[k].id;
    let w2 = relocate(w, k, o, t, p, inv);
    lemma_cell_index(width, height, p);
    lemma_cell_index(width, height, w.agents[k].position);
    if w.locs[t] == Some(id) {
        let kk = choose|kk: int|
            0 <= kk < w.agents.len() && w.agents[kk].id == w.locs[t].unwrap() && cell_index(width, #[trigger] w.agents[kk].position) == t;
        if kk != k {
            if kk < k {
                assert(w.agents[kk].id < w.agents[k].id);
            } else {
                assert(w.agents[k].id < w.agents[kk].id);
            }
        }
        assert(t == o);
    }
    assert forall|j: int| 0 <= j < w2.agents.len() implies {
        &&& pos_in_bounds(width, height, #[trigger] w2.agents[j].position)
        &&& w2.locs[cell_index(width, w2.agents[j].position)] == Some(w2.agents[j].id)
        &&& w2.terrain[cell_index(width, w2.agents[j].position)] != CellType::Wall
    } by {
        if j != k {
            let c = cell_index(width, w.agents[j].position);
            lemma_cell_index(width, height, w.agents[j].position);
            if j < k {
                assert(w.agents[j].id < w.agents[k].id);
            } else {
                assert(w.agents[k].id < w.agents[j].id);
            }
            assert(c != o);
            assert(c != t);
        }
    }
    assert forall|i: int| 0 <= i < w2.locs.len() && (#[trigger] w2.locs[i]).is_some() implies exists|j: int|
        0 <= j < w2.agents.len() && w2.agents[j].id == w2.locs[i].unwrap() && cell_index(width, #[trigger] w2.agents[j].position) == i by {
        if i == t {
            assert(w2.agents[k].id == w2.locs[i].unwrap() && cell_index(width, w2.agents[k].position) == i);
        } else {
            assert(i != o);
            assert(w.locs[i].is_some());
            let j = choose|j: int|
                0 <= j < w.agents.len() && w.agents[j].id == w.locs[i].unwrap() && cell_index(width, #[trigger] w.agents[j].position) == i;
            assert(j != k);
            assert(w2.agents[j].id == w2.locs[i].unwrap() && cell_index(width, w2.agents[j].position) == i);
        }
    }
}

proof fn lemma_after_pickup_wf(w: World, width: nat, height: nat, k: int, t: int)
    requires
        world_wf(w, width, height),
        0 <= k < w.agents.len(),
        0 <= t < w.items.len(),
    ensures
        world_wf(after_pickup(w, k, t), width, height),
{
    let w2 = after_pickup(w, k, t);
    assert forall|i: int| 0 <= i < w2.locs.len() && (#[trigger] w2.locs[i]).is_some() implies exists|j: int|
        0 <= j < w2.agents.len() && w2.agents[j].id == w2.locs[i].unwrap() && cell_index(width, #[trigger] w2.agents[j].position) == i by {
        let j = choose|j: int|
            0 <= j < w.agents.len() && w.agents[j].id == w.locs[i].unwrap() && cell_index(width, #[trigger] w.agents[j].position) == i;
        assert(w2.agents[j].id == w2.locs[i].unwrap() && cell_index(width, w2.agents[j].position) == i);
    }
    assert forall|j: int| 0 <= j < w2.agents.len() implies {
        &&& pos_in_bounds(width, height, #[trigger] w2.agents[j].position)
        &&& w2.locs[cell_index(width, w2.agents[j].position)] == Some(w2.agents[j].id)
        &&& w2.terrain[cell_index(width, w2.agents[j].position)] != CellType::Wall
    } by {
        assert(w2.agents[j].position == w.agents[j].position);
    }
}

proof fn lemma_open_door_wf(w: World, width: nat, height: nat, t: int, c: CellType)
    requires
        world_wf(w, width, height),
        0 <= t < w.terrain.len(),
        w.terrain[t] != CellType::Wall,
        c != CellType::Wall,
    ensures
        world_wf(World { terrain: w.terrain.update(t, c), ..w }, width, height),
{
    let w2 = World { terrain: w.terrain.update(t, c), ..w };
    assert forall|j: int| 0 <= j < w2.agents.len() implies w2.terrain[cell_index(width, #[trigger] w2.agents[j].position)]
        != CellType::Wall by {
        lemma_cell_index(width, height, w.agents[j].position);
    }
    assert forall|i: int| 0 <= i < w2.items.len() && (#[trigger] w2.items[i]).is_some() implies w2.terrain[i]
        != CellType::Wall by {}
    assert forall|i: int| 0 <= i < w2.locs.len() && (#[trigger] w2.locs[i]).is_some() implies exists|j: int|
        0 <= j < w2.agents.len() && w2.agents[j].id == w2.locs[i].unwrap() && cell_index(width, #[trigger] w2.agents[j].position) == i by {
        let j = choose|j: int|
            0 <= j < w.agents.len() && w.agents[j].id == w.locs[i].unwrap() && cell_index(width, #[trigger] w.agents[j].position) == i;
        assert(w2.agents[j].id == w2.locs[i].unwrap() && cell_index(width, w2.agents[j].position) == i);
    }
}

proof fn lemma_ids_unique(ag: Seq<AgentModel>, width: nat, height: nat, w: World, i: int, j: int)
    requires
        world_wf(w, width, height),
        ag == w.agents,
        0 <= i < ag.len(),
        0 <= j < ag.len(),
        ag[i].id == ag[j].id,
    ensures
        i == j,
{
    if i < j {
        assert(w.agents[i].id < w.agents[j].id);
    } else if j < i {
        assert(w.agents[j].id < w.agents[i].id);
    }
}

/// A move that wins leaves the mover on a cell holding the goal.
proof fn lemma_win_on_goal(w: World, width: nat, height: nat, id: EntityId, action: Action)
    requires
        world_wf(w, width, height),
        step_world(w, width, height, id, action).1 == ActionResult::Win,
    ensures
        ({
            let w2 = step_world(w, width, height, id, action).0;
            exists|k: int| 0 <= k < w2.agents.len() && w2.items[cell_index(width, #[trigger] w2.agents[k].position)] == Some(Item::Goal)
        }),
{
    let k = agent_index(w.agents, id);
    let w2 = step_world(w, width, height, id, action).0;
    assert(w2.items[cell_index(width, w2.agents[k].position)] == Some(Item::Goal));
}

proof fn lemma_insert_agent_wf(w: World, width: nat, height: nat, j: int, a: AgentModel)
    requires
        world_wf(w, width, height),
        0 <= j <= w.agents.len(),
        forall|i: int| 0 <= i < j ==> (#[trigger] w.agents[i]).id < a.id,
        forall|i: int| j <= i < w.agents.len() ==> a.id < (#[trigger] w.agents[i]).id,
        pos_in_bounds(width, height, a.position),
        w.locs[cell_index(width, a.position)].is_none(),
        w.terrain[cell_index(width, a.position)] != CellType::Wall,
    ensures
        world_wf(
            World { locs: w.locs.update(cell_index(width, a.position), Some(a.id)), agents: w.agents.insert(j, a), ..w },
            width,
            height,
        ),
{
    let t = cell_index(width, a.position);
    let w2 = World { locs: w.locs.update(t, Some(a.id)), agents: w.agents.insert(j, a), ..w };
    lemma_cell_index(width, height, a.position);
    assert forall|i1: int, i2: int| 0 <= i1 < i2 < w2.agents.len() implies w2.agents[i1].id < w2.agents[i2].id by {
        if i1 < j && i2 > j {
            assert(w.agents[i1].id < a.id);
            assert(a.id < w.agents[i2 - 1].id);
        } else if i1 > j {
            assert(w.agents[i1 - 1].id < w.agents[i2 - 1].id);
        } else if i2 < j {
        } else if i1 == j {
            assert(a.id < w.agents[i2 - 1].id);
        } else {
            assert(w.agents[i1].id < a.id);
        }
    }
    assert forall|k: int| 0 <= k < w2.agents.len() implies {
        &&& pos_in_bounds(width, height, #[trigger] w2.agents[k].position)
        &&& w2.locs[cell_index(width, w2.agents[k].position)] == Some(w2.agents[k].id)
        &&& w2.terrain[cell_index(width, w2.agents[k].position)] != CellType::Wall
    } by {
        if k != j {
            let k0 = if k < j { k } else { k - 1 };
            assert(w2.agents[k] == w.agents[k0]);
            lemma_cell_index(width, height, w.agents[k0].position);
            assert(cell_index(width, w.agents[k0].position) != t);
        }
    }
    assert forall|i: int| 0 <= i < w2.locs.len() && (#[trigger] w2.locs[i]).is_some() implies exists|k: int|
        0 <= k < w2.agents.len() && w2.agents[k].id == w2.locs[i].unwrap() && cell_index(width, #[trigger] w2.agents[k].position) == i by {
        if i == t {
            assert(w2.agents[j] == a);
        } else {
            let k0 = choose|k: int|
                0 <= k < w.agents.len() && w.agents[k].id == w.locs[i].unwrap() && cell_index(width, #[trigger] w.agents[k].position) == i;
            let k = if k0 < j { k0 } else { k0 + 1 };
            assert(w2.agents[k] == w.agents[k0]);
        }
    }
}

/// Every action, successful or not, keeps the world's invariant and the agents' ids.
pub proof fn lemma_step_preserves_wf(w: World, width: nat, height: nat, id: EntityId, action: Action)
    requires
        world_wf(w, width, height),
    ensures
        world_wf(step_world(w, width, height, id, action).0, width, height),
        step_world(w, width, height, id, action).0.agents.len() == w.agents.len(),
        forall|k: int|
            0 <= k < w.agents.len() ==> (#[trigger] step_world(w, width, height, id, action).0.agents[k]).id
                == w.agents[k].id,
{
    if has_agent(w.agents, id) {
        let k = agent_index(w.agents, id);
        if let Action::Move { dx, dy } = action {
            let pos = w.agents[k].position;
            let tx = pos.x + dx;
            let ty = pos.y + dy;
            if 0 <= tx < width && 0 <= ty < height {
                let p = Position { x: tx as usize, y: ty as usize };
                let t = cell_index(width, p);
                lemma_cell_index(width, height, p);
                if w.items[t] == Some(Item::Goal) {
                    if !(w.locs[t].is_some() && w.locs[t] != Some(w.agents[k].id)) {
                        lemma_relocate_wf(w, width, height, k, p, w.agents[k].inventory);
                    }
                } else {
                    let w1 = after_pickup(w, k, t);
                    lemma_after_pickup_wf(w, width, height, k, t);
                    let inv1 = w1.agents[k].inventory;
                    match w.terrain[t] {
                        CellType::Wall => {},
                        CellType::Door { open: false, door_type: Some(kt) } => {
                            if w.locs[t].is_none() && has_key(inv1, kt) {
                                let c = CellType::Door { open: true, door_type: Some(kt) };
                                lemma_open_door_wf(w1, width, height, t, c);
                                lemma_relocate_wf(
                                    World { terrain: w.terrain.update(t, c), ..w1 },
                                    width,
                                    height,
                                    k,
                                    p,
                                    inv1.remove(first_key(inv1, kt)),
                                );
                            }
                        },
                        CellType::Door { open: false, door_type: None } => {
                            if w.locs[t].is_none() {
                                let c = CellType::Door { open: true, door_type: None };
                                lemma_open_door_wf(w1, width, height, t, c);
                                lemma_relocate_wf(World { terrain: w.terrain.update(t, c), ..w1 }, width, height, k, p, inv1);
                            }
                        },
                        _ => {
                            if w.locs[t].is_none() {
                                lemma_relocate_wf(w1, width, height, k, p, inv1);
                            }
                        },
                    }
                }
            }
        }
    }
}

/// After a successful move the mover's id is held by exactly one cell of the
/// occupancy grid, and that cell is the mover's recorded position.
pub proof fn lemma_move_single_location(w: World, width: nat, height: nat, id: EntityId, dx: isize, dy: isize)
    requires
        world_wf(w, width, height),
        step_world(w, width, height, id, Action::Move { dx, dy }).1 == ActionResult::Success,
    ensures
        ({
            let w2 = step_world(w, width, height, id, Action::Move { dx, dy }).0;
            let k = agent_index(w2.agents, id);
            &&& has_agent(w2.agents, id)
            &&& forall|i: int|
                0 <= i < w2.locs.len() ==> (w2.locs[i] == Some(id) <==> i == cell_index(width, w2.agents[k].position))
        }),
{
    let w2 = step_world(w, width, height, id, Action::Move { dx, dy }).0;
    lemma_step_preserves_wf(w, width, height, id, Action::Move { dx, dy });
    let k0 = agent_index(w.agents, id);
    assert(w2.agents[k0].id == id);
    assert(has_agent(w2.agents, id));
    let k = agent_index(w2.agents, id);
    lemma_cell_index(width, height, w2.agents[k].position);
    assert forall|i: int| 0 <= i < w2.locs.len() implies (w2.locs[i] == Some(id) <==> i == cell_index(
        width,
        w2.agents[k].position,
    )) by {
        if w2.locs[i] == Some(id) {
            let j = choose|j: int|
                0 <= j < w2.agents.len() && w2.agents[j].id == w2.locs[i].unwrap() && cell_index(width, #[trigger] w2.agents[j].position) == i;
            lemma_ids_unique(w2.agents, width, height, w2, j, k);
        }
    }
}

proof fn lemma_key_count_push(s: Seq<Item>, x: Item, c: DoorKeyType)
    ensures
        key_count(s.push(x), c) == key_count(s, c) + if is_key_of(x, c) { 1nat } else { 0nat },
{
    assert(s.push(x).drop_last() =~= s);
}

proof fn lemma_key_count_remove(s: Seq<Item>, i: int, c: DoorKeyType)
    requires
        0 <= i < s.len(),
    ensures
        key_count(s.remove(i), c) + (if is_key_of(s[i], c) { 1nat } else { 0nat }) == key_count(s, c),
    decreases s.len(),
{
    if i == s.len() - 1 {
        assert(s.remove(i) =~= s.drop_last());
    } else {
        lemma_key_count_remove(s.drop_last(), i, c);
        assert(s.remove(i).drop_last() =~= s.drop_last().remove(i));
        assert(s.remove(i).last() == s.last());
    }
}

/// Keys and doors: a step that opens a locked door of colour `kt` leaves the
/// mover with exactly one key of that colour fewer than it held once the
/// step's pickup was done, and holds of every other colour as many; a step
/// onto an already open door takes no key of any colour.
pub proof fn lemma_door_key_use(w: World, width: nat, height: nat, id: EntityId, dx: isize, dy: isize, c: DoorKeyType)
    requires
        world_wf(w, width, height),
        has_agent(w.agents, id),
    ensures
        ({
            let k = agent_index(w.agents, id);
            let pos = w.agents[k].position;
            let p = Position { x: (pos.x + dx) as usize, y: (pos.y + dy) as usize };
            let t = cell_index(width, p);
            let (w2, r) = step_world(w, width, height, id, Action::Move { dx, dy });
            let inv1 = after_pickup(w, k, t).agents[k].inventory;
            &&& (pos_in_bounds(width, height, p) && 0 <= pos.x + dx && 0 <= pos.y + dy && w.items[t] != Some(
                Item::Goal,
            ) && w.terrain[t] == (CellType::Door { open: false, door_type: Some(c) }) && r == ActionResult::Success)
                ==> key_count(w2.agents[k].inventory, c) + 1 == key_count(inv1, c)
            &&& (pos_in_bounds(width, height, p) && 0 <= pos.x + dx && 0 <= pos.y + dy && w.terrain[t] is Door
                && w.terrain[t]->open) ==> key_count(w2.agents[k].inventory, c) >= key_count(w.agents[k].inventory, c)
        }),
{
    let k = agent_index(w.agents, id);
    let pos = w.agents[k].position;
    let p = Position { x: (pos.x + dx) as usize, y: (pos.y + dy) as usize };
    let t = cell_index(width, p);
    let inv0 = w.agents[k].inventory;
    let inv1 = after_pickup(w, k, t).agents[k].inventory;
    if pos_in_bounds(width, height, p) && 0 <= pos.x + dx && 0 <= pos.y + dy {
        lemma_cell_index(width, height, p);
        match w.items[t] {
            Some(Item::Chip) => lemma_key_count_push(inv0, Item::Chip, c),
            Some(Item::Key { key_type }) => lemma_key_count_push(inv0, Item::Key { key_type }, c),
            _ => {},
        }
        if w.items[t] != Some(Item::Goal) {
            if let CellType::Door { open: false, door_type: Some(kt) } = w.terrain[t] {
                if has_key(inv1, kt) {
                    let i = first_key(inv1, kt);
                    let j = choose|j: int| 0 <= j < inv1.len() && is_key_of(#[trigger] inv1[j], kt);
                    assert(exists|i: int| is_first_key(inv1, kt, i)) by {
                        lemma_first_key_exists(inv1, kt, j);
                    }
                    lemma_key_count_remove(inv1, i, c);
                }
            }
        }
    }
}

proof fn lemma_first_key_exists(inv: Seq<Item>, k: DoorKeyType, j: int)
    requires
        0 <= j < inv.len(),
        is_key_of(inv[j], k),
    ensures
        exists|i: int| is_first_key(inv, k, i),
    decreases j,
{
    if forall|m: int| 0 <= m < j ==> !is_key_of(#[trigger] inv[m], k) {
        assert(is_first_key(inv, k, j));
    } else {
        let m = choose|m: int| 0 <= m < j && is_key_of(#[trigger] inv[m], k);
        lemma_first_key_exists(inv, k, m);
    }
}

} // verus!
