use ripper::grid_world::layout::is_layout_reachable;
use ripper::grid_world::mutation::{
    apply_entity_mutation, apply_reposition, apply_wall_mutation, can_mutate, index_cells, mutate_entity,
    mutate_layout, mutate_repositions, mutate_valid_layout, mutate_walls, MutationPlan, MutationType,
};

fn grid_of(text: &str) -> Vec<Vec<char>> {
    text.lines().map(|l| l.chars().collect()).collect()
}

fn text_of(grid: &Vec<Vec<char>>) -> String {
    grid.iter().map(|r| r.iter().collect::<String>()).collect::<Vec<String>>().join("\n")
}

fn count(text: &str, c: char) -> usize {
    text.chars().filter(|&x| x == c).count()
}

fn still() -> MutationPlan {
    MutationPlan {
        n_wall_mutations: 0,
        max_walls: 0,
        max_enemies: 3,
        enemy_mutation: MutationType::Nothing,
        max_traps: 3,
        trap_mutation: MutationType::Nothing,
        n_repositions: 0,
    }
}

const SMALL: &str = "#####\n#P.G#\n#E#T#\n#####";

#[test]
fn index_lists_interior_cells_by_kind() {
    let grid = grid_of(SMALL);
    let ix = index_cells(&grid, 4, 5);
    assert_eq!(ix.empty, vec![(1, 2)]);
    assert_eq!(ix.walls, vec![(2, 2)]);
    assert_eq!(ix.players, vec![(1, 1)]);
    assert_eq!(ix.goals, vec![(1, 3)]);
    assert_eq!(ix.enemies, vec![(2, 1)]);
    assert_eq!(ix.traps, vec![(2, 3)]);
}

#[test]
fn wall_mutation_adds_then_removes() {
    let mut grid = grid_of(SMALL);
    let mut ix = index_cells(&grid, 4, 5);
    apply_wall_mutation(&mut grid, &mut ix, 4, 5, 5, 0);
    assert_eq!(text_of(&grid), "#####\n#P#G#\n#E#T#\n#####");
    assert!(ix.empty.is_empty());
    assert_eq!(ix.walls, vec![(2, 2), (1, 2)]);
    // no empty cell left: the wall at position 0 goes
    apply_wall_mutation(&mut grid, &mut ix, 4, 5, 5, 0);
    assert_eq!(text_of(&grid), "#####\n#P#G#\n#E.T#\n#####");
    assert_eq!(ix.walls, vec![(1, 2)]);
    assert_eq!(ix.empty, vec![(2, 2)]);
}

#[test]
fn wall_cap_turns_adding_into_removing() {
    let mut grid = grid_of(SMALL);
    let mut ix = index_cells(&grid, 4, 5);
    // one wall already, a cap of one: the wall goes instead
    apply_wall_mutation(&mut grid, &mut ix, 4, 5, 1, 0);
    assert_eq!(text_of(&grid), "#####\n#P.G#\n#E.T#\n#####");
    assert_eq!(ix.empty, vec![(1, 2), (2, 2)]);
    assert!(ix.walls.is_empty());
}

#[test]
fn wall_mutations_count() {
    let text = "######\n#....#\n#....#\n######";
    let mut grid = grid_of(text);
    let mut ix = index_cells(&grid, 4, 6);
    mutate_walls(&mut grid, &mut ix, 4, 6, 3, 2);
    // two walls go up, the third mutation takes one down
    assert_eq!(ix.walls.len(), 1);
    assert_eq!(ix.empty.len(), 7);
    assert_eq!(count(&text_of(&grid), '#'), 17);
}

#[test]
fn entity_mutations() {
    let mut grid = grid_of(SMALL);
    let mut ix = index_cells(&grid, 4, 5);
    apply_entity_mutation(&mut grid, &mut ix, 4, 5, 'E', 3, MutationType::Add, 0);
    assert_eq!(text_of(&grid), "#####\n#PEG#\n#E#T#\n#####");
    assert_eq!(ix.enemies, vec![(2, 1), (1, 2)]);
    apply_entity_mutation(&mut grid, &mut ix, 4, 5, 'T', 3, MutationType::Remove, 0);
    assert_eq!(text_of(&grid), "#####\n#PEG#\n#E#.#\n#####");
    assert!(ix.traps.is_empty());
    assert_eq!(ix.empty, vec![(2, 3)]);
    // at the cap nothing is added
    apply_entity_mutation(&mut grid, &mut ix, 4, 5, 'E', 2, MutationType::Add, 0);
    assert_eq!(ix.enemies.len(), 2);
    // nothing to remove
    apply_entity_mutation(&mut grid, &mut ix, 4, 5, 'T', 3, MutationType::Remove, 0);
    assert_eq!(text_of(&grid), "#####\n#PEG#\n#E#.#\n#####");
    mutate_entity(&mut grid, &mut ix, 4, 5, 'T', 3, MutationType::Add);
    assert_eq!(text_of(&grid), "#####\n#PEG#\n#E#T#\n#####");
}

#[test]
fn reposition_moves_an_entity() {
    let mut grid = grid_of(SMALL);
    let mut ix = index_cells(&grid, 4, 5);
    apply_reposition(&mut grid, &mut ix, 4, 5, ('P', (1, 1)), 0);
    assert_eq!(text_of(&grid), "#####\n#.PG#\n#E#T#\n#####");
    assert_eq!(ix.players, vec![(1, 2)]);
    // the cell left behind is not listed as empty
    assert!(ix.empty.is_empty());
}

#[test]
fn repositions_keep_every_entity() {
    let text = "#######\n#P...G#\n#E...T#\n#######";
    for _ in 0..10 {
        let mut grid = grid_of(text);
        let mut ix = index_cells(&grid, 4, 7);
        mutate_repositions(&mut grid, &mut ix, 4, 7, 3);
        let out = text_of(&grid);
        for c in ['P', 'G', 'E', 'T'] {
            assert_eq!(count(&out, c), 1);
        }
        assert_eq!(ix.empty.len(), 3);
        assert_eq!(count(&out, '#'), 18);
    }
}

#[test]
fn still_plan_keeps_the_layout() {
    assert!(can_mutate(SMALL, &still()));
    assert_eq!(mutate_layout(SMALL, &still()), SMALL);
}

#[test]
fn plan_counts_hold() {
    let text = "#######\n#P....#\n#..E..#\n#....G#\n#######";
    let plan = MutationPlan {
        n_wall_mutations: 2,
        max_walls: 10,
        max_enemies: 3,
        enemy_mutation: MutationType::Add,
        max_traps: 2,
        trap_mutation: MutationType::Add,
        n_repositions: 2,
    };
    assert!(can_mutate(text, &plan));
    for _ in 0..10 {
        let out = mutate_layout(text, &plan);
        assert_eq!(count(&out, '#'), 20 + 2);
        assert_eq!(count(&out, 'E'), 2);
        assert_eq!(count(&out, 'T'), 1);
        assert_eq!(count(&out, 'P'), 1);
        assert_eq!(count(&out, 'G'), 1);
        assert_eq!(out.lines().count(), 5);
        assert!(out.lines().all(|l| l.len() == 7));
    }
}

#[test]
fn plans_that_cannot_run() {
    let mut plan = still();
    plan.n_repositions = 5;
    assert!(!can_mutate(SMALL, &plan));
    assert!(!can_mutate("P.G", &still()));
    assert!(!can_mutate("", &still()));
    assert!(!can_mutate("####\n#P\n####", &still()));
    plan.n_repositions = 1;
    // one empty cell, one entity moves
    assert!(can_mutate(SMALL, &plan));
}

#[test]
fn valid_mutation_is_reachable() {
    let text = "#####\n#P.G#\n#####";
    let plans = vec![still(); 3];
    assert_eq!(mutate_valid_layout(text, &plans), Some(text.to_string()));
    let none: Vec<MutationPlan> = vec![];
    assert_eq!(mutate_valid_layout(text, &none), None);
    let mut wall = still();
    wall.n_wall_mutations = 1;
    wall.max_walls = 5;
    // the only empty cell becomes a wall between player and goal
    assert_eq!(mutate_valid_layout(text, &vec![wall; 4]), None);
    let found = mutate_valid_layout(text, &vec![wall, still()]);
    assert_eq!(found, Some(text.to_string()));
    assert!(is_layout_reachable(text));
}

#[test]
fn valid_mutation_of_lines_ending_in_carriage_returns() {
    // each line keeps one carriage return after `lines`; joined again by
    // line feeds, all but the last lose it
    let text = "#####\r\r\n#P.G#\r\r\n#####\r";
    assert!(can_mutate(text, &still()));
    let found = mutate_valid_layout(text, &vec![still()]);
    assert_eq!(found, Some("#####\r\n#P.G#\r\n#####\r".to_string()));
}

#[test]
fn caps_hold_in_mutations() {
    let text = "######\n#PEE.#\n#..TG#\n######";
    let plan = MutationPlan {
        n_wall_mutations: 5,
        max_walls: 1,
        max_enemies: 2,
        enemy_mutation: MutationType::Add,
        max_traps: 1,
        trap_mutation: MutationType::Add,
        n_repositions: 0,
    };
    assert!(can_mutate(text, &plan));
    for _ in 0..10 {
        let out = mutate_layout(text, &plan);
        // five wall mutations under a cap of one: up, down, up, down, up
        assert_eq!(count(&out, '#'), 16 + 1);
        assert_eq!(count(&out, 'E'), 2);
        assert_eq!(count(&out, 'T'), 1);
    }
}
