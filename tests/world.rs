use agent_world::agent::{Behavior, PlanningAgent};
use agent_world::environment::{
    load_environment_from_string, Action, ActionResult, CellType, Environment, LoadError, MoveError,
    PlacementError,
};
use agent_world::{DoorKeyType, Item, Position};

fn world_with_agent(map: &str, inventory: Vec<Item>) -> (Environment, usize) {
    let (mut env, start) = load_environment_from_string(map).unwrap();
    let id = env.reserve_entity_id();
    let r = env.add_agent(start, Behavior::Planning(PlanningAgent::new(id)), inventory);
    assert_eq!(r, Ok(id));
    (env, id)
}

fn cells_holding(env: &Environment, id: usize) -> Vec<(usize, usize)> {
    env.agent_locations()
        .enumerate()
        .into_iter()
        .filter(|(_, c)| **c == Some(id))
        .map(|(p, _)| p)
        .collect()
}

#[test]
fn loads_tiles() {
    let (env, start) = load_environment_from_string("ST WL DG\nKR CH PL\nBL DP WA").unwrap();
    assert_eq!(start, Position { x: 0, y: 0 });
    assert_eq!(env.terrain().width(), 3);
    assert_eq!(env.terrain().height(), 3);
    assert_eq!(*env.terrain().index(1, 0), CellType::Wall);
    assert_eq!(
        *env.terrain().index(2, 0),
        CellType::Door { open: false, door_type: Some(DoorKeyType::Green) }
    );
    assert_eq!(*env.items().index(0, 1), Some(Item::Key { key_type: DoorKeyType::Red }));
    assert_eq!(*env.items().index(1, 1), Some(Item::Chip));
    assert_eq!(*env.items().index(2, 1), Some(Item::Goal));
    assert_eq!(*env.terrain().index(1, 2), CellType::Floor);
    assert_eq!(*env.terrain().index(2, 2), CellType::Wall);
    assert_eq!(*env.items().index(0, 0), None);
}

#[test]
fn loads_with_blank_edges_and_tabs() {
    let (env, start) = load_environment_from_string("\n\n  BL\tST \r\n BL BL\n\n").unwrap();
    assert_eq!(start, Position { x: 1, y: 0 });
    assert_eq!(env.terrain().width(), 2);
    assert_eq!(env.terrain().height(), 2);
}

#[test]
fn load_errors() {
    assert_eq!(load_environment_from_string("  \n \n").err(), Some(LoadError::Empty));
    assert_eq!(load_environment_from_string("").err(), Some(LoadError::Empty));
    assert_eq!(
        load_environment_from_string("ST BL\nBL\nBL BL BL").err(),
        Some(LoadError::InconsistentWidth { row: 1, expected: 2, found: 1 })
    );
    assert_eq!(
        load_environment_from_string("ST BL\n\nBL BL").err(),
        Some(LoadError::InconsistentWidth { row: 1, expected: 2, found: 0 })
    );
    assert_eq!(
        load_environment_from_string("ST BL\nBL XX").err(),
        Some(LoadError::UnknownCode { x: 1, y: 1 })
    );
    assert_eq!(load_environment_from_string("ST BL\nST BL").err(), Some(LoadError::MultipleStart));
    assert_eq!(load_environment_from_string("BL BL\nBL BL").err(), Some(LoadError::NoStart));
    assert_eq!(
        load_environment_from_string("ST ST\nBL ZZ").err(),
        Some(LoadError::MultipleStart)
    );
}

#[test]
fn wait_succeeds_without_change() {
    let (mut env, id) = world_with_agent("ST BL", vec![]);
    assert_eq!(env.process_action(id, Action::Wait), ActionResult::Success);
    assert_eq!(env.get_agent_state(id).unwrap().position, Position { x: 0, y: 0 });
}

#[test]
fn unknown_agent_fails() {
    let (mut env, _) = world_with_agent("ST BL", vec![]);
    assert_eq!(
        env.process_action(42, Action::Wait),
        ActionResult::Failure(MoveError::AgentNotFound { id: 42 })
    );
}

#[test]
fn move_updates_position_and_occupancy() {
    let (mut env, id) = world_with_agent("ST BL\nBL BL", vec![]);
    assert_eq!(env.process_action(id, Action::Move { dx: 1, dy: 0 }), ActionResult::Success);
    assert_eq!(env.get_agent_state(id).unwrap().position, Position { x: 1, y: 0 });
    assert_eq!(cells_holding(&env, id), vec![(1, 0)]);
    assert_eq!(env.process_action(id, Action::Move { dx: 0, dy: 1 }), ActionResult::Success);
    assert_eq!(cells_holding(&env, id), vec![(1, 1)]);
}

#[test]
fn move_out_of_bounds_fails() {
    let (mut env, id) = world_with_agent("ST BL", vec![]);
    assert_eq!(
        env.process_action(id, Action::Move { dx: -1, dy: 0 }),
        ActionResult::Failure(MoveError::OutOfBounds)
    );
    assert_eq!(
        env.process_action(id, Action::Move { dx: 0, dy: 1 }),
        ActionResult::Failure(MoveError::OutOfBounds)
    );
    assert_eq!(
        env.process_action(id, Action::Move { dx: isize::MIN, dy: 0 }),
        ActionResult::Failure(MoveError::OutOfBounds)
    );
    assert_eq!(cells_holding(&env, id), vec![(0, 0)]);
}

#[test]
fn move_into_wall_fails() {
    let (mut env, id) = world_with_agent("ST WL", vec![]);
    assert_eq!(
        env.process_action(id, Action::Move { dx: 1, dy: 0 }),
        ActionResult::Failure(MoveError::Wall)
    );
    assert_eq!(env.get_agent_state(id).unwrap().position, Position { x: 0, y: 0 });
}

#[test]
fn chip_is_collected() {
    let (mut env, id) = world_with_agent("ST CH", vec![]);
    assert_eq!(env.process_action(id, Action::Move { dx: 1, dy: 0 }), ActionResult::Success);
    assert_eq!(env.get_agent_state(id).unwrap().inventory, vec![Item::Chip]);
    assert_eq!(*env.items().index(1, 0), None);
}

#[test]
fn duplicate_key_is_left_on_ground() {
    let red = Item::Key { key_type: DoorKeyType::Red };
    let (mut env, id) = world_with_agent("ST KR", vec![red]);
    assert_eq!(env.process_action(id, Action::Move { dx: 1, dy: 0 }), ActionResult::Success);
    assert_eq!(env.get_agent_state(id).unwrap().inventory, vec![red]);
    assert_eq!(*env.items().index(1, 0), Some(red));
}

#[test]
fn locked_door_consumes_one_key_once() {
    let green = Item::Key { key_type: DoorKeyType::Green };
    let (mut env, id) = world_with_agent("ST DG BL", vec![green, Item::Chip, green]);
    assert_eq!(env.process_action(id, Action::Move { dx: 1, dy: 0 }), ActionResult::Success);
    assert_eq!(env.get_agent_state(id).unwrap().inventory, vec![Item::Chip, green]);
    assert_eq!(
        *env.terrain().index(1, 0),
        CellType::Door { open: true, door_type: Some(DoorKeyType::Green) }
    );
    assert_eq!(env.process_action(id, Action::Move { dx: 1, dy: 0 }), ActionResult::Success);
    assert_eq!(env.process_action(id, Action::Move { dx: -1, dy: 0 }), ActionResult::Success);
    assert_eq!(env.get_agent_state(id).unwrap().inventory, vec![Item::Chip, green]);
}

#[test]
fn locked_door_without_key_fails() {
    let (mut env, id) = world_with_agent("ST DB", vec![Item::Key { key_type: DoorKeyType::Red }]);
    assert_eq!(
        env.process_action(id, Action::Move { dx: 1, dy: 0 }),
        ActionResult::Failure(MoveError::MissingKey { key_type: DoorKeyType::Blue })
    );
    assert_eq!(
        *env.terrain().index(1, 0),
        CellType::Door { open: false, door_type: Some(DoorKeyType::Blue) }
    );
}

#[test]
fn unlocked_door_opens() {
    let (mut env, _) = world_with_agent("ST BL", vec![]);
    env.terrain.set(1, 0, CellType::Door { open: false, door_type: None }).unwrap();
    let id = 0;
    assert_eq!(env.process_action(id, Action::Move { dx: 1, dy: 0 }), ActionResult::Success);
    assert_eq!(*env.terrain().index(1, 0), CellType::Door { open: true, door_type: None });
}

#[test]
fn goal_wins() {
    let (mut env, id) = world_with_agent("ST PL", vec![]);
    assert_eq!(env.process_action(id, Action::Move { dx: 1, dy: 0 }), ActionResult::Win);
    assert_eq!(env.get_agent_state(id).unwrap().position, Position { x: 1, y: 0 });
    assert_eq!(cells_holding(&env, id), vec![(1, 0)]);
}

#[test]
fn occupied_cell_blocks() {
    let (mut env, a) = world_with_agent("ST BL BL", vec![]);
    let b = env.reserve_entity_id();
    assert_eq!(
        env.add_agent(Position { x: 1, y: 0 }, Behavior::Planning(PlanningAgent::new(b)), vec![]),
        Ok(b)
    );
    assert_eq!(
        env.process_action(a, Action::Move { dx: 1, dy: 0 }),
        ActionResult::Failure(MoveError::Occupied)
    );
    assert_eq!(
        env.process_action(b, Action::Move { dx: 0, dy: 0 }),
        ActionResult::Failure(MoveError::Occupied)
    );
}

#[test]
fn placement_errors() {
    let (mut env, id) = world_with_agent("ST WL DR\nBL CH BL", vec![]);
    let p = |x, y| Position { x, y };
    assert_eq!(env.add_item(p(3, 0), Item::Chip), Err(PlacementError::OutOfBounds));
    assert_eq!(env.add_item(p(1, 1), Item::Chip), Err(PlacementError::ItemPresent));
    assert_eq!(env.add_item(p(0, 0), Item::Chip), Err(PlacementError::Occupied));
    assert_eq!(env.add_item(p(1, 0), Item::Chip), Err(PlacementError::Wall));
    assert_eq!(env.add_item(p(2, 1), Item::Goal), Ok(()));
    assert_eq!(*env.items().index(2, 1), Some(Item::Goal));
    let mk = |i| Behavior::Planning(PlanningAgent::new(i));
    assert_eq!(env.add_agent(p(0, 2), mk(5), vec![]), Err(PlacementError::OutOfBounds));
    assert_eq!(env.add_agent(p(0, 0), mk(5), vec![]), Err(PlacementError::Occupied));
    assert_eq!(env.add_agent(p(1, 0), mk(5), vec![]), Err(PlacementError::Wall));
    assert_eq!(env.add_agent(p(2, 0), mk(5), vec![]), Err(PlacementError::ClosedDoor));
    assert_eq!(env.add_agent(p(0, 1), mk(id), vec![]), Err(PlacementError::IdInUse));
    assert_eq!(env.add_agent(p(1, 1), mk(5), vec![]), Ok(5));
    assert_eq!(env.reserve_entity_id(), 6);
}

#[test]
fn agents_kept_in_id_order() {
    let (mut env, _) = world_with_agent("ST BL BL BL", vec![]);
    let mk = |i| Behavior::Planning(PlanningAgent::new(i));
    assert_eq!(env.add_agent(Position { x: 3, y: 0 }, mk(9), vec![]), Ok(9));
    assert_eq!(env.add_agent(Position { x: 2, y: 0 }, mk(4), vec![]), Ok(4));
    let ids: Vec<usize> = env.agents.iter().map(|a| a.id).collect();
    assert_eq!(ids, vec![0, 4, 9]);
    assert_eq!(env.reserve_entity_id(), 10);
}

#[test]
fn door_and_key_queries() {
    let (env, _) = load_environment_from_string("ST DG KG\nDR BL KG\nDG KR BL").unwrap();
    assert_eq!(
        env.get_door_locations(Some(DoorKeyType::Green)),
        vec![Position { x: 1, y: 0 }, Position { x: 0, y: 2 }]
    );
    assert_eq!(env.get_door_locations(None), vec![]);
    assert_eq!(env.get_key_location(DoorKeyType::Green), Some(Position { x: 2, y: 0 }));
    assert_eq!(env.get_key_location(DoorKeyType::Blue), None);
    assert_eq!(
        env.get_corresponding_key_location(Position { x: 0, y: 1 }),
        Some(Position { x: 1, y: 2 })
    );
    assert_eq!(env.get_corresponding_key_location(Position { x: 1, y: 1 }), None);
    assert_eq!(env.get_corresponding_key_location(Position { x: 9, y: 9 }), None);
}

#[test]
fn loads_with_unicode_whitespace() {
    let (env, start) = load_environment_from_string("ST\u{3000}BL\u{00A0}CH\u{2003}\nBL BL\u{2028}PL\u{0085}").unwrap();
    assert_eq!(start, Position { x: 0, y: 0 });
    assert_eq!(env.terrain().width(), 3);
    assert_eq!(env.terrain().height(), 2);
    assert_eq!(*env.items().index(2, 0), Some(Item::Chip));
    assert_eq!(*env.items().index(2, 1), Some(Item::Goal));
    assert_eq!(
        load_environment_from_string("ST\u{00E9}").err(),
        Some(LoadError::UnknownCode { x: 0, y: 0 })
    );
}
