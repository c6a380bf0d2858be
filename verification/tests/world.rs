use std::collections::HashMap;

use ripper::grid_world::action::Action;
use ripper::grid_world::entity::EntityKind;
use ripper::grid_world::environment::Environment;
use ripper::grid_world::layout::parse_layout;
use ripper::grid_world::world::{
    check_enemy_collision, check_goal, check_trap_collision, clamp_move, despawn_entity, get_entity_ids_by_kind,
    is_walkable, spawn_entity, update_discovered, EndReason, World, WorldConfig,
};

fn world_of(text: &str) -> World {
    parse_layout(text, &WorldConfig::default())
}

fn act(pairs: &[(u32, Action)]) -> HashMap<u32, Action> {
    let mut m = HashMap::new();
    for &(id, a) in pairs {
        m.insert(id, a);
    }
    m
}

#[test]
fn default_config_values() {
    let c = WorldConfig::default();
    assert_eq!(c.max_tick, 100);
    assert_eq!(c.player_perception_range, 5);
    assert_eq!(c.enemy_perception_range, 5);
}

#[test]
fn parse_numbers_entities_in_row_major_order() {
    let w = world_of("#P.\n.GE");
    assert_eq!(w.height, 2);
    assert_eq!(w.width, 3);
    assert_eq!(w.next_id, 4);
    assert_eq!(w.positions[&0], (0, 0));
    assert_eq!(w.kinds[&0], EntityKind::Wall);
    assert_eq!(w.positions[&1], (0, 1));
    assert_eq!(w.kinds[&1], EntityKind::Player);
    assert_eq!(w.kinds[&2], EntityKind::Goal);
    assert_eq!(w.positions[&3], (1, 2));
    assert_eq!(w.kinds[&3], EntityKind::Enemy);
    assert_eq!(w.perception_ranges.len(), 2);
    assert_eq!(w.perception_ranges[&1], 5);
    assert!(w.discovered[&1].is_empty());
    assert!(!w.done);
    assert_eq!(w.tick, 0);
}

#[test]
fn parse_trims_lines() {
    let w = world_of("  P.  \n\t.G");
    assert_eq!(w.width, 2);
    assert_eq!(w.positions[&0], (0, 0));
    assert_eq!(w.positions[&1], (1, 1));
}

#[test]
fn ids_by_kind_ascending() {
    let w = world_of("E.E\nPE.");
    assert_eq!(get_entity_ids_by_kind(&w, EntityKind::Enemy), vec![0, 1, 3]);
    assert_eq!(get_entity_ids_by_kind(&w, EntityKind::Player), vec![2]);
    assert!(get_entity_ids_by_kind(&w, EntityKind::Goal).is_empty());
}

#[test]
fn spawn_and_despawn() {
    let mut w = world_of("P.\n.G");
    let id = spawn_entity(&mut w, EntityKind::Trap, (0, 1));
    assert_eq!(id, 2);
    assert_eq!(w.next_id, 3);
    assert_eq!(w.kinds[&2], EntityKind::Trap);
    assert!(check_trap_collision(&w, 2));
    update_discovered(&mut w, 0, (0, 0), 1);
    despawn_entity(&mut w, 0);
    assert!(!w.positions.contains_key(&0));
    assert!(!w.kinds.contains_key(&0));
    assert!(!w.discovered.contains_key(&0));
    assert!(!w.perception_ranges.contains_key(&0));
    assert_eq!(w.next_id, 3);
}

#[test]
fn clamp_keeps_inside() {
    let w = world_of("...\n...\n...");
    assert_eq!(clamp_move(&w, (0, 0), (-1, 0)), (0, 0));
    assert_eq!(clamp_move(&w, (0, 0), (0, -1)), (0, 0));
    assert_eq!(clamp_move(&w, (2, 2), (1, 0)), (2, 2));
    assert_eq!(clamp_move(&w, (2, 2), (0, 1)), (2, 2));
    assert_eq!(clamp_move(&w, (1, 1), (1, 0)), (2, 1));
    assert_eq!(clamp_move(&w, (1, 1), (0, -1)), (1, 0));
}

#[test]
fn walkable_and_collisions() {
    let w = world_of("P#\nEG");
    assert!(is_walkable(&w, (0, 0)));
    assert!(!is_walkable(&w, (0, 1)));
    assert!(!check_goal(&w, 0));
    assert!(!check_enemy_collision(&w, 0));
    assert!(!check_trap_collision(&w, 0));
}

#[test]
fn walls_block_moves() {
    let mut w = world_of("P#G");
    let res = w.step(act(&[(0, Action::Right)]));
    assert!(!res.done);
    assert_eq!(res.reason, None);
    assert_eq!(w.positions[&0], (0, 0));
    assert_eq!(w.tick, 1);
}

#[test]
fn edges_block_moves() {
    let mut w = world_of("P.\n.G");
    let res = w.step(act(&[(0, Action::Up)]));
    assert!(!res.done);
    assert_eq!(w.positions[&0], (0, 0));
}

#[test]
fn reaching_the_goal_ends() {
    let mut w = world_of("PG");
    let res = w.step(act(&[(0, Action::Right)]));
    assert!(res.done);
    assert_eq!(res.reason, Some(EndReason::GoalReached));
    assert!(w.is_done());
}

#[test]
fn trap_kills_the_player() {
    let mut w = world_of("PT.G");
    let res = w.step(act(&[(0, Action::Right)]));
    assert!(res.done);
    assert_eq!(res.reason, Some(EndReason::Trapped));
}

#[test]
fn enemy_catches_the_player() {
    let mut w = world_of("P.E\n..G");
    let res = w.step(act(&[(0, Action::Right), (1, Action::Left)]));
    assert!(res.done);
    assert_eq!(res.reason, Some(EndReason::Caught));
}

#[test]
fn trap_removes_an_enemy() {
    let mut w = world_of("P..\nET.\n..G");
    let res = w.step(act(&[(0, Action::Right), (1, Action::Right)]));
    assert!(!res.done);
    assert!(!w.kinds.contains_key(&1));
    assert!(!w.positions.contains_key(&1));
    assert!(get_entity_ids_by_kind(&w, EntityKind::Enemy).is_empty());
}

#[test]
fn time_runs_out() {
    let config = WorldConfig { max_tick: 2, player_perception_range: 3, enemy_perception_range: 3 };
    let mut w = parse_layout("P...G", &config);
    let res = w.step(act(&[(0, Action::Right)]));
    assert!(!res.done);
    assert_eq!(w.positions[&0], (0, 1));
    let res = w.step(act(&[(0, Action::Right)]));
    assert!(res.done);
    assert_eq!(res.reason, Some(EndReason::Timeout));
    // the timed-out tick moves nobody
    assert_eq!(w.positions[&0], (0, 1));
}

#[test]
fn finished_episode_refuses_to_step() {
    let mut w = world_of("PG.");
    w.step(act(&[(0, Action::Right)]));
    let tick = w.tick;
    let res = w.step(act(&[(0, Action::Right)]));
    assert!(res.done);
    assert_eq!(res.reason, Some(EndReason::GoalReached));
    assert_eq!(w.tick, tick);
    assert_eq!(w.positions[&0], (0, 1));
}

#[test]
fn reset_restores_the_start() {
    let mut w = world_of("P..G\n.E..");
    w.step(act(&[(0, Action::Right), (2, Action::Up)]));
    w.step(act(&[(0, Action::Down), (2, Action::Right)]));
    w.reset();
    let fresh = world_of("P..G\n.E..");
    assert_eq!(w.positions, fresh.positions);
    assert_eq!(w.kinds, fresh.kinds);
    assert_eq!(w.perception_ranges, fresh.perception_ranges);
    assert_eq!(w.tick, 0);
    assert!(!w.done);
    assert_eq!(w.end_reason, None);
    assert!(w.discovered.values().all(|d| d.is_empty()));
}

#[test]
fn stepping_discovers_what_is_seen() {
    let config = WorldConfig { max_tick: 100, player_perception_range: 1, enemy_perception_range: 1 };
    let mut w = parse_layout("P..\n...\n..G", &config);
    w.step(act(&[(0, Action::Down)]));
    let mut seen = w.discovered[&0].clone();
    seen.sort();
    assert_eq!(seen, vec![(0, 0), (1, 0), (1, 1), (2, 0)]);
    w.step(act(&[(0, Action::Up)]));
    let mut seen = w.discovered[&0].clone();
    seen.sort();
    assert_eq!(seen, vec![(0, 0), (0, 1), (1, 0), (1, 1), (2, 0)]);
}

#[test]
fn observation_codes() {
    let config = WorldConfig { max_tick: 100, player_perception_range: 2, enemy_perception_range: 1 };
    let mut w = parse_layout("P#\nEG", &config);
    let obs = w.observation();
    assert_eq!(obs.player_id, 0);
    assert_eq!(obs.enemy_ids, vec![2]);
    assert_eq!(obs.entities.len(), 2);
    // nothing discovered yet: only the movers in sight show
    assert_eq!(obs.entities[0].id, 0);
    assert_eq!(obs.entities[0].position, (0, 0));
    assert_eq!(obs.entities[0].grid, vec![vec![2, -1], vec![3, -1]]);
    w.step(act(&[(0, Action::Up), (2, Action::Left)]));
    let obs = w.observation();
    // after a step the player has discovered every cell: wall 1, goal 5
    assert_eq!(obs.entities[0].grid, vec![vec![2, 1], vec![3, 5]]);
}

#[test]
fn capture_on_the_goal_is_capture() {
    let mut w = world_of("PGE");
    let res = w.step(act(&[(0, Action::Right), (2, Action::Left)]));
    assert!(res.done);
    assert_eq!(res.reason, Some(EndReason::Caught));
    assert_eq!(w.end_reason, Some(EndReason::Caught));
    assert_eq!(w.positions[&0], (0, 1));
    assert_eq!(w.positions[&2], (0, 1));
}

#[test]
fn trap_comes_before_capture() {
    let mut w = world_of("PTE\n..G");
    let res = w.step(act(&[(0, Action::Right), (2, Action::Left)]));
    assert!(res.done);
    assert_eq!(res.reason, Some(EndReason::Trapped));
}

#[test]
fn visible_mover_shows_over_terrain() {
    let config = WorldConfig { max_tick: 100, player_perception_range: 3, enemy_perception_range: 1 };
    let mut w = parse_layout("GE\nP.", &config);
    let res = w.step(act(&[(2, Action::Right), (1, Action::Left)]));
    assert!(!res.done);
    let obs = w.observation();
    assert_eq!(obs.player_id, 2);
    let me = obs.entities.iter().find(|e| e.id == 2).unwrap();
    // the enemy (3) stands on the goal (5) of smaller id
    assert_eq!(me.grid, vec![vec![3, 0], vec![0, 2]]);
}
