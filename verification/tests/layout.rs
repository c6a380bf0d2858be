use ripper::grid_world::layout::{is_searchable, is_searchable_rejoined};
use ripper::grid_world::layout::{
    build_layout, compose_layout, generate_valid_layout, has_player_goal_room, interior_cells, is_layout_reachable,
    is_valid_layout, parse_layout,
};
use ripper::grid_world::world::WorldConfig;

fn count(text: &str, c: char) -> usize {
    text.chars().filter(|&x| x == c).count()
}

#[test]
fn validity_of_layouts() {
    assert!(is_valid_layout("P.\n.G"));
    assert!(is_valid_layout("  P. \n\t.G"));
    assert!(is_valid_layout("#ET"));
    assert!(!is_valid_layout(""));
    assert!(!is_valid_layout("P.\nG"));
    assert!(!is_valid_layout("P.\nGx"));
}

#[test]
fn reachability() {
    assert!(is_layout_reachable("P.G"));
    assert!(is_layout_reachable("P#.\n..G"));
    assert!(!is_layout_reachable("#####\n#P#G#\n#####"));
    assert!(!is_layout_reachable("P#\n#G"));
    // enemies and traps do not block the way
    assert!(is_layout_reachable("PET.G"));
    // the goal is found from the first player
    assert!(is_layout_reachable("G.P"));
}

#[test]
fn interior_of_a_grid() {
    assert_eq!(interior_cells(4, 3), vec![(1, 1), (1, 2)]);
    assert_eq!(interior_cells(4, 4), vec![(1, 1), (1, 2), (2, 1), (2, 2)]);
    assert!(interior_cells(2, 5).is_empty());
}

#[test]
fn composed_layout_places_entities_from_the_end() {
    let walls = vec![(1, 2)];
    let chosen = vec![(1, 1), (2, 3), (2, 1), (1, 3)];
    let text = compose_layout(5, 4, &walls, &chosen, 1, 1);
    assert_eq!(text, "#####\n#T#P#\n#G.E#\n#####");
}

#[test]
fn composed_layout_entities_cover_walls() {
    let walls = vec![(1, 1), (1, 2)];
    let chosen = vec![(1, 2), (1, 1)];
    let text = compose_layout(4, 3, &walls, &chosen, 0, 0);
    assert_eq!(text, "####\n#PG#\n####");
}

#[test]
fn built_layout_has_the_entities() {
    let walls = vec![(1, 1), (2, 2)];
    for _ in 0..20 {
        let text = build_layout(6, 5, &walls, 2, 1, 0);
        assert!(is_valid_layout(&text));
        assert_eq!(count(&text, 'P'), 1);
        assert_eq!(count(&text, 'G'), 1);
        assert_eq!(count(&text, 'E'), 2);
        assert_eq!(count(&text, 'T'), 1);
        let lines: Vec<&str> = text.lines().collect();
        assert_eq!(lines.len(), 5);
        assert_eq!(lines[0], "######");
        assert_eq!(lines[4], "######");
        for l in &lines {
            assert_eq!(l.len(), 6);
            assert!(l.starts_with('#') && l.ends_with('#'));
        }
        let w = parse_layout(&text, &WorldConfig::default());
        assert_eq!(w.height, 5);
        assert_eq!(w.width, 6);
    }
}

fn position_of(text: &str, c: char) -> (usize, usize) {
    for (r, line) in text.lines().enumerate() {
        if let Some(col) = line.chars().position(|x| x == c) {
            return (r, col);
        }
    }
    panic!("no {} in the layout", c);
}

fn distance(a: (usize, usize), b: (usize, usize)) -> usize {
    a.0.abs_diff(b.0) + a.1.abs_diff(b.1)
}

#[test]
fn built_layout_keeps_the_goal_away_from_the_player() {
    let walls = vec![(2, 2), (3, 4)];
    for _ in 0..40 {
        let text = build_layout(8, 8, &walls, 1, 1, 5);
        assert!(is_valid_layout(&text));
        let p = position_of(&text, 'P');
        let g = position_of(&text, 'G');
        assert!(distance(p, g) >= 5, "{}", text);
    }
}

#[test]
fn farthest_goal_takes_the_opposite_corner() {
    // in a 5 by 5 grid only opposite corners of the 3 by 3 interior are
    // 4 apart
    for _ in 0..20 {
        let text = build_layout(5, 5, &vec![], 0, 0, 4);
        let p = position_of(&text, 'P');
        let g = position_of(&text, 'G');
        assert_eq!(distance(p, g), 4);
        assert!(p.0 != g.0 && p.1 != g.1);
    }
}

#[test]
fn room_for_player_and_goal() {
    assert!(!has_player_goal_room(3, 3, 0));
    assert!(has_player_goal_room(4, 3, 0));
    assert!(has_player_goal_room(4, 3, 1));
    assert!(!has_player_goal_room(4, 3, 2));
    assert!(has_player_goal_room(5, 5, 4));
    assert!(!has_player_goal_room(5, 5, 5));
    assert!(!has_player_goal_room(2, 10, 0));
    assert!(has_player_goal_room(16, 16, 5));
}

#[test]
fn generated_valid_layout_is_reachable() {
    let sets = vec![vec![], vec![(1, 2)]];
    for _ in 0..10 {
        let found = generate_valid_layout(5, 5, &sets, 1, 0, 0);
        let text = found.expect("an open layout is always reachable");
        assert!(is_layout_reachable(&text));
        assert_eq!(count(&text, 'P'), 1);
        let far = generate_valid_layout(5, 5, &sets, 1, 0, 3).expect("an open layout is always reachable");
        assert!(distance(position_of(&far, 'P'), position_of(&far, 'G')) >= 3);
    }
}

#[test]
fn no_attempts_no_layout() {
    let sets: Vec<Vec<(usize, usize)>> = vec![];
    assert_eq!(generate_valid_layout(5, 5, &sets, 1, 0, 0), None);
}

#[test]
fn wall_between_player_and_goal_is_rejected() {
    // a 3-wide corridor split by the wall at (1, 2), with the player and
    // the goal forced apart: cells (1,1) and (1,3) are the only free ones
    // besides the wall, and entities never land on the border.
    let sets = vec![vec![(1, 2)]];
    let mut kept = 0;
    let mut rejected = 0;
    for _ in 0..60 {
        let found = generate_valid_layout(5, 3, &sets, 0, 0, 0);
        match found {
            Some(text) => {
                assert!(is_layout_reachable(&text));
                // then one of the two stood on the wall cell
                assert_eq!(count(&text, '#'), 12);
                kept += 1;
            }
            None => rejected += 1,
        }
    }
    assert!(kept > 0 && rejected > 0);
}

#[test]
fn searchable_layouts() {
    assert!(is_searchable("P.G"));
    assert!(is_searchable("P.\n.G."));
    assert!(!is_searchable("P..\n.G"));
    assert!(!is_searchable("P.."));
    assert!(!is_searchable("..G"));
    assert!(!is_searchable(""));
    assert!(is_searchable_rejoined("P.G\n..."));
    assert!(is_searchable_rejoined("P.G\r\n..."));
    // the first line loses its last carriage return: the rest stay as long
    assert!(is_searchable_rejoined("P.G\r\r\n..."));
    // a later line loses it and falls short of the first
    assert!(!is_searchable_rejoined("P.G\n..\r\r\n..."));
    // the last line keeps it
    assert!(is_searchable_rejoined("P.G\n..\r"));
}
