use agent_world::agent::{Agent, Behavior, PlanningAgent, RandomWalker};
use agent_world::environment::{
    load_environment_from_string, Action, ActionResult, Environment, EnvironmentView,
};
use agent_world::{DoorKeyType, Item, Position};

fn view_of(env: &Environment, id: usize) -> EnvironmentView<'_> {
    let st = env.get_agent_state(id).unwrap();
    EnvironmentView {
        agent_state: st,
        location: st.position,
        terrain_grid: &env.terrain,
        item_grid: &env.items,
        agent_location_grid: &env.agent_locations,
    }
}

fn planner_world(map: &str) -> (Environment, usize) {
    let (mut env, start) = load_environment_from_string(map).unwrap();
    let id = env.reserve_entity_id();
    env.add_agent(start, Behavior::Planning(PlanningAgent::new(id)), vec![]).unwrap();
    (env, id)
}

fn manhattan(a: Position, b: Position) -> usize {
    a.x.abs_diff(b.x) + a.y.abs_diff(b.y)
}

#[test]
fn a_star_on_open_grid_is_shortest() {
    let map = "ST BL BL BL BL\nBL BL BL BL BL\nBL BL BL BL BL\nBL BL BL BL BL";
    let (env, id) = planner_world(map);
    let view = view_of(&env, id);
    let agent = PlanningAgent::new(id);
    let start = Position { x: 0, y: 0 };
    for gy in 0..4 {
        for gx in 0..5 {
            let goal = Position { x: gx, y: gy };
            let path = agent.a_star_path(start, goal, &view, &vec![]).unwrap();
            assert_eq!(path.len() - 1, manhattan(start, goal));
            assert_eq!(path[0], start);
            assert_eq!(*path.last().unwrap(), goal);
            for w in path.windows(2) {
                assert_eq!(manhattan(w[0], w[1]), 1);
            }
        }
    }
}

#[test]
fn a_star_blocked_by_locked_door() {
    let (env, id) = planner_world("ST BL WL BL\nBL BL DR PL\nBL BL WL BL");
    let view = view_of(&env, id);
    let agent = PlanningAgent::new(id);
    let goal = Position { x: 3, y: 1 };
    assert!(agent.a_star_path(Position { x: 0, y: 0 }, goal, &view, &vec![]).is_none());
    assert!(agent
        .a_star_path(Position { x: 0, y: 0 }, goal, &view, &vec![DoorKeyType::Blue])
        .is_none());
    let path = agent
        .a_star_path(Position { x: 0, y: 0 }, goal, &view, &vec![DoorKeyType::Red])
        .unwrap();
    assert_eq!(path.len(), 5);
    assert!(path.contains(&Position { x: 2, y: 1 }));
}

#[test]
fn a_star_goal_outside_or_same() {
    let (env, id) = planner_world("ST BL");
    let view = view_of(&env, id);
    let agent = PlanningAgent::new(id);
    let s = Position { x: 0, y: 0 };
    assert!(agent.a_star_path(s, Position { x: 5, y: 0 }, &view, &vec![]).is_none());
    assert_eq!(agent.a_star_path(s, s, &view, &vec![]), Some(vec![s]));
}

#[test]
fn neighbors_skip_walls_agents_and_locked_doors() {
    let (mut env, id) = planner_world("BL WL BL\nDY ST DB\nBL BL BL");
    env.add_agent(Position { x: 1, y: 2 }, Behavior::Planning(PlanningAgent::new(7)), vec![])
        .unwrap();
    let view = view_of(&env, id);
    let agent = PlanningAgent::new(id);
    let n = agent.get_valid_neighbors(&Position { x: 1, y: 1 }, &view, &vec![DoorKeyType::Blue]);
    assert_eq!(n, vec![Position { x: 2, y: 1 }]);
    let n = agent.get_valid_neighbors(&Position { x: 0, y: 0 }, &view, &vec![DoorKeyType::Yellow]);
    assert_eq!(n, vec![Position { x: 0, y: 1 }]);
}

#[test]
fn keys_held_and_item_search() {
    let (mut env, id) = planner_world("ST CH KG\nPL KG CH");
    env.agents[0].inventory =
        vec![Item::Key { key_type: DoorKeyType::Red }, Item::Chip, Item::Key { key_type: DoorKeyType::Red }];
    let view = view_of(&env, id);
    let agent = PlanningAgent::new(id);
    assert_eq!(agent.get_keys_held(&view), vec![DoorKeyType::Red]);
    assert_eq!(agent.find_chips(&view), vec![Position { x: 1, y: 0 }, Position { x: 2, y: 1 }]);
    assert_eq!(agent.find_goals(&view), vec![Position { x: 0, y: 1 }]);
    let keys = agent.find_keys(&view);
    assert_eq!(keys[1], (DoorKeyType::Green, vec![Position { x: 2, y: 0 }, Position { x: 1, y: 1 }]));
    assert!(keys[0].1.is_empty());
}

#[test]
fn nearest_target_and_key() {
    let (env, id) = planner_world("ST BL BL KB\nBL BL BL BL\nKR BL BL CH");
    let view = view_of(&env, id);
    let agent = PlanningAgent::new(id);
    let s = Position { x: 0, y: 0 };
    let targets = vec![Position { x: 3, y: 2 }, Position { x: 0, y: 2 }];
    let p = agent.plan_to_nearest_target(s, &targets, &view, &vec![]).unwrap();
    assert_eq!(*p.last().unwrap(), Position { x: 0, y: 2 });
    assert_eq!(p.len(), 3);
    assert!(agent.plan_to_nearest_target(s, &vec![], &view, &vec![]).is_none());
    let k = agent.plan_to_nearest_reachable_key(s, &view, &vec![]).unwrap();
    assert_eq!(*k.last().unwrap(), Position { x: 0, y: 2 });
    let k = agent.plan_to_nearest_reachable_key(s, &view, &vec![DoorKeyType::Red]).unwrap();
    assert_eq!(*k.last().unwrap(), Position { x: 3, y: 0 });
}

#[test]
fn position_to_action_steps() {
    let p = |x, y| Position { x, y };
    assert_eq!(PlanningAgent::position_to_action(&p(1, 1), &p(1, 1)), Action::Wait);
    assert_eq!(PlanningAgent::position_to_action(&p(1, 1), &p(1, 2)), Action::Move { dx: 0, dy: 1 });
    assert_eq!(PlanningAgent::position_to_action(&p(1, 1), &p(1, 0)), Action::Move { dx: 0, dy: -1 });
    assert_eq!(PlanningAgent::position_to_action(&p(1, 1), &p(2, 1)), Action::Move { dx: 1, dy: 0 });
    assert_eq!(PlanningAgent::position_to_action(&p(1, 1), &p(0, 1)), Action::Move { dx: -1, dy: 0 });
    assert_eq!(PlanningAgent::position_to_action(&p(1, 1), &p(3, 3)), Action::Wait);
}

#[test]
fn manhattan_distance_values() {
    let p = |x, y| Position { x, y };
    assert_eq!(PlanningAgent::manhattan_distance(&p(0, 0), &p(2, 2)), 4);
    assert_eq!(PlanningAgent::manhattan_distance(&p(5, 1), &p(2, 3)), 5);
    assert_eq!(PlanningAgent::manhattan_distance(&p(3, 3), &p(3, 3)), 0);
}

#[test]
fn planner_follows_queued_plan() {
    let (env, id) = planner_world("ST BL PL");
    let view = view_of(&env, id);
    let mut agent = PlanningAgent::new(id);
    assert_eq!(agent.get_action(&view), Action::Move { dx: 1, dy: 0 });
    assert_eq!(agent.current_plan.len(), 1);
    // The view still shows the agent at the start, two cells from the queued waypoint.
    assert_eq!(agent.get_action(&view), Action::Wait);
    assert!(agent.current_plan.is_empty());
}

fn run_until_win(env: &mut Environment, max_turns: usize, id: usize) -> (Option<usize>, Vec<Position>) {
    let mut visited = vec![env.get_agent_state(id).unwrap().position];
    for turn in 1..=max_turns {
        let r = env.process_turn();
        visited.push(env.get_agent_state(id).unwrap().position);
        if r == ActionResult::Win {
            return (Some(turn), visited);
        }
        assert_eq!(r, ActionResult::Success);
    }
    (None, visited)
}

#[test]
fn scenario_straight_to_goal() {
    let (mut env, id) = planner_world("ST BL BL\nBL BL BL\nBL BL PL");
    let (won, _) = run_until_win(&mut env, 20, id);
    assert_eq!(won, Some(4));
}

#[test]
fn scenario_chip_before_goal() {
    let (mut env, id) = planner_world("ST BL BL\nBL CH BL\nBL BL PL");
    let (won, visited) = run_until_win(&mut env, 20, id);
    assert_eq!(won, Some(2 + 2));
    let chip_at = visited.iter().position(|p| *p == Position { x: 1, y: 1 }).unwrap();
    assert_eq!(chip_at, 2);
    assert_eq!(env.get_agent_state(id).unwrap().inventory, vec![Item::Chip]);
}

#[test]
fn scenario_key_behind_door_never_wins() {
    let (mut env, id) = planner_world("ST DG KG PL");
    let (won, visited) = run_until_win(&mut env, 15, id);
    assert_eq!(won, None);
    assert!(visited.iter().all(|p| *p == Position { x: 0, y: 0 }));
    let view = view_of(&env, id);
    let mut agent = PlanningAgent::new(id);
    assert_eq!(agent.get_action(&view), Action::Wait);
}

#[test]
fn scenario_key_then_door_then_goal() {
    let (mut env, id) = planner_world("KG ST DG PL");
    let (won, visited) = run_until_win(&mut env, 15, id);
    assert_eq!(won, Some(4));
    assert_eq!(visited[1], Position { x: 0, y: 0 });
    assert_eq!(env.get_agent_state(id).unwrap().inventory, vec![]);
}

#[test]
fn random_walker_moves_by_unit_offsets() {
    assert_eq!(RandomWalker::offsets_to_action(0, 0), Action::Wait);
    assert_eq!(RandomWalker::offsets_to_action(-1, 1), Action::Move { dx: -1, dy: 1 });
    let mut w = RandomWalker::new(3, 99);
    assert_eq!(w.id(), 3);
    let mut moved = false;
    for _ in 0..200 {
        match w.random_action() {
            Action::Wait => {}
            Action::Move { dx, dy } => {
                assert!((-1..=1).contains(&dx) && (-1..=1).contains(&dy));
                assert!(dx != 0 || dy != 0);
                moved = true;
            }
        }
    }
    assert!(moved);
}

#[test]
fn random_walker_in_world_stays_consistent() {
    let (mut env, start) = load_environment_from_string("ST BL BL\nBL WL BL\nBL BL BL").unwrap();
    env.add_agent(start, Behavior::Random(RandomWalker::new(0, 7)), vec![]).unwrap();
    for _ in 0..50 {
        assert_eq!(env.process_turn(), ActionResult::Success);
        let pos = env.get_agent_state(0).unwrap().position;
        let holders: Vec<(usize, usize)> = env
            .agent_locations()
            .enumerate()
            .into_iter()
            .filter(|(_, c)| **c == Some(0))
            .map(|(p, _)| p)
            .collect();
        assert_eq!(holders, vec![(pos.x, pos.y)]);
    }
}

#[test]
fn a_star_from_outside_the_grid() {
    let (env, id) = planner_world("ST BL");
    let view = view_of(&env, id);
    let agent = PlanningAgent::new(id);
    let off = Position { x: 2, y: 0 };
    assert_eq!(
        agent.a_star_path(off, Position { x: 1, y: 0 }, &view, &vec![]),
        Some(vec![off, Position { x: 1, y: 0 }])
    );
    assert_eq!(agent.a_star_path(off, off, &view, &vec![]), Some(vec![off]));
    let far = Position { x: 9, y: 9 };
    assert!(agent.a_star_path(far, Position { x: 1, y: 0 }, &view, &vec![]).is_none());
    let p = agent.plan_to_nearest_target(off, &vec![Position { x: 1, y: 0 }], &view, &vec![]).unwrap();
    assert_eq!(p.len(), 2);
}

#[test]
fn nearest_target_prefers_first_of_equal() {
    let (env, id) = planner_world("BL BL BL\nBL ST BL\nBL BL BL");
    let view = view_of(&env, id);
    let agent = PlanningAgent::new(id);
    let s = Position { x: 1, y: 1 };
    let targets = vec![Position { x: 0, y: 0 }, Position { x: 1, y: 2 }, Position { x: 2, y: 1 }];
    let p = agent.plan_to_nearest_target(s, &targets, &view, &vec![]).unwrap();
    assert_eq!(*p.last().unwrap(), Position { x: 1, y: 2 });
}

#[test]
fn unreachable_targets_give_none() {
    let (env, id) = planner_world("ST WL CH\nWL WL KR");
    let view = view_of(&env, id);
    let agent = PlanningAgent::new(id);
    let s = Position { x: 0, y: 0 };
    assert!(agent.plan_to_nearest_target(s, &agent.find_chips(&view), &view, &vec![]).is_none());
    assert!(agent.plan_to_nearest_reachable_key(s, &view, &vec![]).is_none());
    let mut planner = PlanningAgent::new(id);
    assert_eq!(planner.get_action(&view), Action::Wait);
    assert!(planner.current_plan.is_empty());
}

#[test]
fn process_turn_runs_agents_in_id_order() {
    let (mut env, start) = load_environment_from_string("ST BL BL").unwrap();
    env.add_agent(start, Behavior::Planning(PlanningAgent::new(3)), vec![]).unwrap();
    env.add_item(Position { x: 2, y: 0 }, Item::Chip).unwrap();
    env.add_agent(Position { x: 1, y: 0 }, Behavior::Planning(PlanningAgent::new(1)), vec![]).unwrap();
    // Agent 1 acts first, takes the chip, and frees (1, 0) before agent 3 decides.
    assert_eq!(env.process_turn(), ActionResult::Success);
    assert_eq!(env.get_agent_state(1).unwrap().position, Position { x: 2, y: 0 });
    assert_eq!(env.get_agent_state(1).unwrap().inventory, vec![Item::Chip]);
}
