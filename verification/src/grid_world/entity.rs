use vstd::prelude::*;

verus! {

/// What an entity of the world is.
#[derive(Debug, Clone, Copy, PartialEq, Eq, Hash, Structural)]
pub enum EntityKind {
    Player,
    Enemy,
    Goal,
    Wall,
    Trap,
}

/// The layout character of each kind.
pub open spec fn kind_char(kind: EntityKind) -> char {
    match kind {
        EntityKind::Player => 'P',
        EntityKind::Enemy => 'E',
        EntityKind::Goal => 'G',
        EntityKind::Wall => '#',
        EntityKind::Trap => 'T',
    }
}

/// The kind a layout character stands for, if any.
pub open spec fn char_kind(ch: char) -> Option<EntityKind> {
    if ch == 'P' {
        Some(EntityKind::Player)
    } else if ch == 'E' {
        Some(EntityKind::Enemy)
    } else if ch == 'G' {
        Some(EntityKind::Goal)
    } else if ch == '#' {
        Some(EntityKind::Wall)
    } else if ch == 'T' {
        Some(EntityKind::Trap)
    } else {
        None
    }
}

/// Movers are the entities that act each tick; the others are terrain.
pub open spec fn is_mover(kind: EntityKind) -> bool {
    kind == EntityKind::Player || kind == EntityKind::Enemy
}

/// Terrain: the kinds that stay put and are remembered once seen.
pub open spec fn is_terrain(kind: EntityKind) -> bool {
    kind == EntityKind::Wall || kind == EntityKind::Trap || kind == EntityKind::Goal
}

impl EntityKind {
    pub fn to_char(&self) -> (ch: char)
        ensures
            ch == kind_char(*self),
    {
        match self {
            EntityKind::Player => 'P',
            EntityKind::Enemy => 'E',
            EntityKind::Goal => 'G',
            EntityKind::Wall => '#',
            EntityKind::Trap => 'T',
        }
    }

    pub fn from_char(ch: char) -> (kind: Option<EntityKind>)
        ensures
            kind == char_kind(ch),
    {
        match ch {
            'P' => Some(EntityKind::Player),
            'E' => Some(EntityKind::Enemy),
            'G' => Some(EntityKind::Goal),
            '#' => Some(EntityKind::Wall),
            'T' => Some(EntityKind::Trap),
            _ => None,
        }
    }
}

/// Reading back the character of a kind gives the kind again.
pub proof fn lemma_char_round_trip(kind: EntityKind)
    ensures
        char_kind(kind_char(kind)) == Some(kind),
{
}

/// A character that stands for a kind is that kind's character.
pub proof fn lemma_kind_round_trip(ch: char)
    ensures
        char_kind(ch) matches Some(kind) ==> kind_char(kind) == ch,
{
}

/// Distinct kinds have distinct characters.
pub proof fn lemma_kind_char_injective(a: EntityKind, b: EntityKind)
    ensures
        kind_char(a) == kind_char(b) ==> a == b,
{
}

} // verus!
