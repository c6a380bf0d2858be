use ripper::grid::{
    check_collision, create_grid, observation_flags, render_grid, reset_grid, spawn_entity, step, step_enemy,
    step_enemy_in_direction, Action, Cell, EntityKind, GridConfig,
};

fn config() -> GridConfig {
    GridConfig { agent_start: (0, 0), goal_pos: (2, 3), enemy_start: (1, 1) }
}

#[test]
fn creating_spawns_player_enemy_goal() {
    let g = create_grid(4, 3, config());
    assert_eq!(g.entities.len(), 3);
    assert_eq!(g.entities[0].id, 0);
    assert_eq!(g.entities[0].kind, EntityKind::Player);
    assert_eq!(g.entities[0].pos, (0, 0));
    assert_eq!(g.entities[1].kind, EntityKind::Enemy);
    assert_eq!(g.entities[2].kind, EntityKind::Goal);
    assert_eq!(g.entities[2].pos, (2, 3));
    assert_eq!(g.player_id, Some(0));
    assert_eq!(g.enemy_id, Some(1));
    assert_eq!(g.next_id, 3);
    assert_eq!(g.data, vec![vec![Cell::Empty; 4]; 3]);
    assert_eq!(Cell::Empty.to_char(), '.');
}

#[test]
fn printed_board() {
    let g = create_grid(4, 3, config());
    assert_eq!(render_grid(&g), "P...\n.E..\n...G\n");
}

#[test]
fn stepping_moves_and_finds_the_goal() {
    let mut g = create_grid(4, 3, config());
    assert_eq!(step(&mut g, 0, Action::Up), ((0, 0), false));
    assert_eq!(step(&mut g, 0, Action::Right), ((0, 1), false));
    assert_eq!(step(&mut g, 0, Action::Reset), ((0, 1), false));
    assert_eq!(step(&mut g, 0, Action::Down), ((1, 1), false));
    assert!(check_collision(&g));
    step(&mut g, 0, Action::Down);
    step(&mut g, 0, Action::Right);
    assert_eq!(step(&mut g, 0, Action::Right), ((2, 3), true));
    assert_eq!(step(&mut g, 0, Action::Right), ((2, 3), true));
    assert_eq!(step(&mut g, 0, Action::Down), ((2, 3), true));
    assert!(!check_collision(&g));
}

#[test]
fn resetting_restores_the_start() {
    let mut g = create_grid(4, 3, config());
    step(&mut g, 0, Action::Right);
    let extra = spawn_entity(&mut g, EntityKind::Enemy, (2, 2));
    assert_eq!(extra, 3);
    reset_grid(&mut g);
    assert_eq!(g.entities.len(), 3);
    assert_eq!(g.entities[0].pos, (0, 0));
    assert_eq!(g.next_id, 3);
}

#[test]
fn enemy_moves_one_cell() {
    let mut g = create_grid(4, 3, config());
    step_enemy_in_direction(&mut g, 3);
    assert_eq!(g.entities[1].pos, (1, 2));
    step_enemy_in_direction(&mut g, 0);
    assert_eq!(g.entities[1].pos, (0, 2));
    step_enemy_in_direction(&mut g, 0);
    assert_eq!(g.entities[1].pos, (0, 2));
    for _ in 0..50 {
        let before = g.entities[1].pos;
        step_enemy(&mut g);
        let after = g.entities[1].pos;
        let d = before.0.abs_diff(after.0) + before.1.abs_diff(after.1);
        assert!(d <= 1);
        assert!(after.0 < 3 && after.1 < 4);
    }
}

#[test]
fn observation_channels() {
    let g = create_grid(4, 3, config());
    let obs = observation_flags(&g);
    assert_eq!(obs.len(), 3);
    assert!(obs[0][0][0]);
    assert!(obs[1][1][1]);
    assert!(obs[2][2][3]);
    let set: usize = obs.iter().map(|ch| ch.iter().map(|r| r.iter().filter(|&&b| b).count()).sum::<usize>()).sum();
    assert_eq!(set, 3);
}
