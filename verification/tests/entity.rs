use ripper::grid_world::action::Action;
use ripper::grid_world::entity::EntityKind;

#[test]
fn chars_round_trip() {
    for k in [EntityKind::Player, EntityKind::Enemy, EntityKind::Goal, EntityKind::Wall, EntityKind::Trap] {
        assert_eq!(EntityKind::from_char(k.to_char()), Some(k));
    }
    assert_eq!(EntityKind::Wall.to_char(), '#');
    assert_eq!(EntityKind::Trap.to_char(), 'T');
    assert_eq!(EntityKind::from_char('.'), None);
    assert_eq!(EntityKind::from_char('x'), None);
}

#[test]
fn actions_by_number() {
    assert_eq!(Action::from_index(0), Action::Up);
    assert_eq!(Action::from_index(1), Action::Down);
    assert_eq!(Action::from_index(2), Action::Left);
    assert_eq!(Action::from_index(3), Action::Right);
    assert_eq!(Action::from_index(7), Action::Right);
}

#[test]
fn random_actions_cover_all_four() {
    let mut seen = [false; 4];
    for _ in 0..400 {
        let a = ripper::grid_world::action::random_action();
        let i = match a {
            Action::Up => 0,
            Action::Down => 1,
            Action::Left => 2,
            Action::Right => 3,
        };
        seen[i] = true;
    }
    assert!(seen.iter().all(|&s| s));
}
