use ripper::grid_world::environment::Environment;
use ripper::grid_world::layout::parse_layout;
use ripper::grid_world::render::{
    drawn_kinds, get_cell_char_by_position, render_entity_view, render_visible_cells, render_world,
};
use ripper::grid_world::vision::get_visible_cells;
use ripper::grid_world::entity::EntityKind;
use ripper::grid_world::world::{World, WorldConfig};

fn test_world() -> World {
    let layout_str = ".......
        .......
        ...#...
        ..#....
        .......
        .......
        .......";

    let config = WorldConfig::default();
    parse_layout(layout_str, &config)
}

#[test]
fn wall_blocks_direct_line() {
    let world = test_world();
    let rendered = render_world(&world);
    println!("{}", rendered);
    assert_eq!(rendered, ".......\n.......\n...#...\n..#....\n.......\n.......\n.......\n");
    let map = render_visible_cells(&world, (3, 3), 10);
    println!("{}", map);
    assert_eq!(map, "XXXXX..\nXXXXX..\nXXX#...\nXX#....\nX......\n.......\n.......\n");
    // the wall straight above blocks the cells beyond it
    let visible = get_visible_cells(&world, (3, 3), 10);
    assert!(visible.contains(&(2, 3)));
    assert!(!visible.contains(&(1, 3)));
    // the diagonal between the two walls is sealed
    assert!(!visible.contains(&(2, 2)));
    assert_eq!(visible.len(), 33);
}

#[test]
fn render_shows_every_kind() {
    let world = parse_layout("#####\n#P.G#\n#E#T#\n#####", &WorldConfig::default());
    assert_eq!(render_world(&world), "#####\n#P.G#\n#E#T#\n#####\n");
    assert_eq!(get_cell_char_by_position(&world, (1, 1)), 'P');
    assert_eq!(get_cell_char_by_position(&world, (1, 2)), '.');
    assert_eq!(get_cell_char_by_position(&world, (2, 3)), 'T');
    assert_eq!(get_cell_char_by_position(&world, (0, 0)), '#');
}

#[test]
fn entity_view_hides_undiscovered_cells() {
    let config = WorldConfig { max_tick: 100, player_perception_range: 1, enemy_perception_range: 1 };
    let world = parse_layout("P....\n.....\n....G", &config);
    // the player is entity 0; nothing discovered yet, range 1 around (0, 0)
    let view = render_entity_view(&world, 0);
    assert_eq!(view, "P.XXX\n.XXXX\nXXXXX\n");
}

#[test]
fn entity_view_remembers_terrain_only() {
    let config = WorldConfig { max_tick: 100, player_perception_range: 1, enemy_perception_range: 1 };
    let mut world = parse_layout("P.#\n...\n..G", &config);
    let obs = world.observation();
    assert_eq!(obs.player_id, 0);
    let view = render_entity_view(&world, 0);
    assert_eq!(view, "P.X\n.XX\nXXX\n");
    let mut actions = std::collections::HashMap::new();
    actions.insert(0u32, ripper::grid_world::action::Action::Right);
    let res = world.step(actions);
    assert!(!res.done);
    let view = render_entity_view(&world, 0);
    assert_eq!(view, ".P#\nX.X\nXXX\n");
}

#[test]
fn entity_view_remembers_terrain_under_an_enemy() {
    let config = WorldConfig { max_tick: 100, player_perception_range: 0, enemy_perception_range: 1 };
    let mut world = parse_layout("EG\n.P", &config);
    // the enemy (entity 0) steps onto the goal (entity 1), out of the
    // player's sight; the player remembers the goal's cell
    world.positions.insert(0, (0, 1));
    world.discovered.insert(2, vec![(0, 1)]);
    let view = render_entity_view(&world, 2);
    let first = view.lines().next().unwrap();
    assert_eq!(first, "XG");
    let obs = world.observation();
    let player = obs.entities.iter().find(|e| e.id == 2).unwrap();
    assert_eq!(player.grid[0][1], 5);
    // never seen: `X` in the view, -1 in the observation
    assert_eq!(&first[0..1], "X");
    assert_eq!(player.grid[0][0], -1);
}

#[test]
fn window_draws_visible_movers_and_discovered_terrain() {
    let config = WorldConfig { max_tick: 100, player_perception_range: 3, enemy_perception_range: 1 };
    let mut world = parse_layout("GE\nP.", &config);
    let mut actions = std::collections::HashMap::new();
    actions.insert(2u32, ripper::grid_world::action::Action::Right);
    actions.insert(1u32, ripper::grid_world::action::Action::Left);
    let res = world.step(actions);
    assert!(!res.done);
    let visible = get_visible_cells(&world, world.positions[&2], 3);
    let discovered = world.discovered[&2].clone();
    let kinds = drawn_kinds(&world, &visible, &discovered);
    // the enemy stands on the goal: the visible mover is drawn
    assert_eq!(kinds[0][0], Some(EntityKind::Enemy));
    assert_eq!(kinds[0][1], None);
    assert_eq!(kinds[1][0], None);
    assert_eq!(kinds[1][1], Some(EntityKind::Player));
    // nothing seen, nothing discovered: only the discovered goal remains
    let kinds = drawn_kinds(&world, &vec![], &discovered);
    assert_eq!(kinds[0][0], Some(EntityKind::Goal));
    assert_eq!(kinds[1][1], None);
    let kinds = drawn_kinds(&world, &vec![], &vec![]);
    assert!(kinds.iter().all(|row| row.iter().all(|k| k.is_none())));
}
