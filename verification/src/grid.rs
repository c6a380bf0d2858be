//! The first, single-agent grid: a player, an enemy and a goal on an empty
//! board, with clamped moves, a randomly walking enemy and a 3-channel
//! observation.

use vstd::prelude::*;

use crate::chance::random_below;
use crate::grid_world::text::{push_char};

verus! {

/// A board cell.
#[derive(Debug, Clone, Copy, PartialEq, Eq, Hash, Structural)]
pub enum Cell {
    Empty,
}

impl Cell {
    /// The character a cell prints as.
    pub fn to_char(&self) -> (c: char)
        ensures
            c == '.',
    {
        match self {
            Cell::Empty => '.',
        }
    }
}

#[derive(Debug, Clone, Copy, PartialEq, Eq, Hash, Structural)]
pub enum EntityKind {
    Player,
    Enemy,
    Goal,
}

#[derive(Debug, Clone, Copy, PartialEq, Eq, Hash)]
pub struct Entity {
    pub id: u32,
    pub kind: EntityKind,
    pub pos: (usize, usize),
}

pub struct GridConfig {
    pub agent_start: (usize, usize),
    pub goal_pos: (usize, usize),
    pub enemy_start: (usize, usize),
}

#[derive(Debug, Clone, Copy, PartialEq, Eq, Structural)]
pub enum Action {
    Up,
    Down,
    Left,
    Right,
    Reset,
    Exit,
}

pub struct Grid {
    pub width: usize,
    pub height: usize,
    pub data: Vec<Vec<Cell>>,
    pub entities: Vec<Entity>,
    pub agent_start: (usize, usize),
    pub enemy_start: (usize, usize),
    pub goal_pos: (usize, usize),
    pub next_id: u32,
    pub player_id: Option<u32>,
    pub enemy_id: Option<u32>,
}

/// The board holds `height` rows of at least `width` cells.
pub open spec fn board_covers(g: Grid) -> bool {
    &&& g.data@.len() >= g.height
    &&& forall|r: int| 0 <= r < g.height ==> (#[trigger] g.data@[r])@.len() >= g.width
}

/// The three entities a reset places, with ids 0, 1, 2.
pub open spec fn start_entities(g: Grid) -> Seq<Entity> {
    seq![
        Entity { id: 0, kind: EntityKind::Player, pos: g.agent_start },
        Entity { id: 1, kind: EntityKind::Enemy, pos: g.enemy_start },
        Entity { id: 2, kind: EntityKind::Goal, pos: g.goal_pos },
    ]
}

/// `after` is `before` reset: the same board and settings, the three
/// starting entities, ids counted from 3, player 0 and enemy 1.
pub open spec fn is_reset_of(after: Grid, before: Grid) -> bool {
    &&& after.width == before.width
    &&& after.height == before.height
    &&& after.data@.len() == before.data@.len()
    &&& forall|r: int| 0 <= r < before.data@.len() ==> (#[trigger] after.data@[r])@.len() == before.data@[r]@.len()
    &&& after.agent_start == before.agent_start
    &&& after.enemy_start == before.enemy_start
    &&& after.goal_pos == before.goal_pos
    &&& after.entities@ == start_entities(before)
    &&& after.next_id == 3
    &&& after.player_id == Some(0u32)
    &&& after.enemy_id == Some(1u32)
}

/// Adds an entity with the next id.
pub fn spawn_entity(grid: &mut Grid, kind: EntityKind, pos: (usize, usize)) -> (id: u32)
    requires
        old(grid).next_id < u32::MAX,
    ensures
        id == old(grid).next_id,
        final(grid).next_id == old(grid).next_id + 1,
        final(grid).entities@ == old(grid).entities@.push(Entity { id, kind, pos }),
        final(grid).width == old(grid).width,
        final(grid).height == old(grid).height,
        final(grid).data@ == old(grid).data@,
        final(grid).agent_start == old(grid).agent_start,
        final(grid).enemy_start == old(grid).enemy_start,
        final(grid).goal_pos == old(grid).goal_pos,
        final(grid).player_id == old(grid).player_id,
        final(grid).enemy_id == old(grid).enemy_id,
{
    let id = grid.next_id;
    let entity: Entity = Entity { id: id, kind, pos };
    grid.next_id = grid.next_id + 1;
    grid.entities.push(entity);
    id
}

/// Empties the board and places the player, the enemy and the goal at
/// their starting cells again.
pub fn reset_grid(grid: &mut Grid)
    requires
        board_covers(*old(grid)),
    ensures
        is_reset_of(*final(grid), *old(grid)),
{
    let ghost before = *grid;
    let mut row: usize = 0;
    while row < grid.height
        invariant
            row <= grid.height,
            grid.width == before.width,
            grid.height == before.height,
            board_covers(*grid),
            grid.data@.len() == before.data@.len(),
            forall|r: int| 0 <= r < before.data@.len() ==> (#[trigger] grid.data@[r])@.len() == before.data@[r]@.len(),
            grid.agent_start == before.agent_start,
            grid.enemy_start == before.enemy_start,
            grid.goal_pos == before.goal_pos,
        decreases grid.height - row,
    {
        let mut col: usize = 0;
        while col < grid.width
            invariant
                col <= grid.width,
                row < grid.height,
                grid.width == before.width,
                grid.height == before.height,
                board_covers(*grid),
                grid.data@.len() == before.data@.len(),
                forall|r: int| 0 <= r < before.data@.len() ==> (#[trigger] grid.data@[r])@.len() == before.data@[r]@.len(),
                grid.agent_start == before.agent_start,
                grid.enemy_start == before.enemy_start,
                grid.goal_pos == before.goal_pos,
            decreases grid.width - col,
        {
            grid.data[row].set(col, Cell::Empty);
            col = col + 1;
        }
        row = row + 1;
    }
    grid.next_id = 0;
    grid.entities = Vec::new();
    let agent_start = grid.agent_start;
    let enemy_start = grid.enemy_start;
    let goal_pos = grid.goal_pos;
    let player_id = spawn_entity(grid, EntityKind::Player, agent_start);
    let enemy_id = spawn_entity(grid, EntityKind::Enemy, enemy_start);
    let _goal_id = spawn_entity(grid, EntityKind::Goal, goal_pos);
    grid.player_id = Some(player_id);
    grid.enemy_id = Some(enemy_id);
    assert(grid.entities@ =~= start_entities(before));
}

/// A board of empty cells with the player, the enemy and the goal placed.
pub fn create_grid(width: usize, height: usize, config: GridConfig) -> (grid: Grid)
    ensures
        grid.width == width,
        grid.height == height,
        grid.data@.len() == height,
        forall|r: int| 0 <= r < height ==> (#[trigger] grid.data@[r])@.len() == width,
        grid.agent_start == config.agent_start,
        grid.enemy_start == config.enemy_start,
        grid.goal_pos == config.goal_pos,
        grid.entities@ == start_entities(grid),
        grid.next_id == 3,
        grid.player_id == Some(0u32),
        grid.enemy_id == Some(1u32),
{
    let mut data: Vec<Vec<Cell>> = Vec::new();
    let mut r: usize = 0;
    while r < height
        invariant
            r <= height,
            data@.len() == r,
            forall|i: int| 0 <= i < r ==> (#[trigger] data@[i])@.len() == width,
        decreases height - r,
    {
        let mut line: Vec<Cell> = Vec::new();
        let mut c: usize = 0;
        while c < width
            invariant
                c <= width,
                line@.len() == c,
            decreases width - c,
        {
            line.push(Cell::Empty);
            c = c + 1;
        }
        data.push(line);
        r = r + 1;
    }
    let mut grid: Grid = Grid {
        width,
        height,
        data,
        entities: Vec::new(),
        agent_start: config.agent_start,
        enemy_start: config.enemy_start,
        goal_pos: config.goal_pos,
        next_id: 0,
        player_id: None,
        enemy_id: None,
    };
    reset_grid(&mut grid);
    grid
}

/// The character of an entity kind on the printed board.
pub open spec fn entity_char(kind: EntityKind) -> char {
    match kind {
        EntityKind::Player => 'P',
        EntityKind::Enemy => 'E',
        EntityKind::Goal => 'G',
    }
}

/// The character printed for a cell: the first entity standing there (in
/// the order of the entity list), or `.`.
pub open spec fn board_char(ents: Seq<Entity>, pos: (usize, usize)) -> char
    decreases ents.len(),
{
    if ents.len() == 0 {
        '.'
    } else if ents[0].pos == pos {
        entity_char(ents[0].kind)
    } else {
        board_char(ents.drop_first(), pos)
    }
}

pub open spec fn board_row(g: Grid, r: int) -> Seq<char> {
    Seq::new(g.width as nat, |c: int| board_char(g.entities@, (r as usize, c as usize)))
}

/// The first `n` printed rows, each ended by a line feed.
pub open spec fn board_rows(g: Grid, n: int) -> Seq<char>
    decreases n,
{
    if n <= 0 {
        seq![]
    } else {
        board_rows(g, n - 1) + board_row(g, n - 1).push('\n')
    }
}

fn board_char_at(ents: &Vec<Entity>, pos: (usize, usize)) -> (ch: char)
    ensures
        ch == board_char(ents@, pos),
{
    let mut i: usize = 0;
    assert(ents@.skip(0) =~= ents@);
    while i < ents.len()
        invariant
            i <= ents.len(),
            board_char(ents@, pos) == board_char(ents@.skip(i as int), pos),
        decreases ents.len() - i,
    {
        let e = ents[i];
        proof {
            assert(ents@.skip(i as int)[0] == e);
            assert(ents@.skip(i as int).drop_first() =~= ents@.skip(i + 1));
        }
        if e.pos.0 == pos.0 && e.pos.1 == pos.1 {
            return match e.kind {
                EntityKind::Player => 'P',
                EntityKind::Enemy => 'E',
                EntityKind::Goal => 'G',
            };
        }
        i = i + 1;
    }
    '.'
}

/// The printed board: one line per row, the first entity on a cell shown
/// by its letter, `.` elsewhere.
pub fn render_grid(grid: &Grid) -> (s: String)
    ensures
        s@ == board_rows(*grid, grid.height as int),
{
    let mut s = String::new();
    let mut row: usize = 0;
    while row < grid.height
        invariant
            row <= grid.height,
            s@ == board_rows(*grid, row as int),
        decreases grid.height - row,
    {
        let ghost base = s@;
        let mut col: usize = 0;
        while col < grid.width
            invariant
                col <= grid.width,
                row < grid.height,
                base == board_rows(*grid, row as int),
                s@ == base + board_row(*grid, row as int).take(col as int),
            decreases grid.width - col,
        {
            let ch = board_char_at(&grid.entities, (row, col));
            push_char(&mut s, ch);
            assert(board_row(*grid, row as int).take(col + 1) =~= board_row(*grid, row as int).take(col as int).push(ch));
            assert(s@ =~= base + board_row(*grid, row as int).take(col + 1));
            col = col + 1;
        }
        push_char(&mut s, '\n');
        assert(board_row(*grid, row as int).take(col as int) =~= board_row(*grid, row as int));
        assert(s@ =~= board_rows(*grid, row + 1));
        row = row + 1;
    }
    s
}

/// `i` is the first entity of the list with id `id`.
pub open spec fn first_with_id(ents: Seq<Entity>, id: u32, i: int) -> bool {
    &&& 0 <= i < ents.len()
    &&& ents[i].id == id
    &&& forall|j: int| 0 <= j < i ==> (#[trigger] ents[j]).id != id
}

pub open spec fn has_id(ents: Seq<Entity>, id: u32) -> bool {
    exists|i: int| 0 <= i < ents.len() && (#[trigger] ents[i]).id == id
}

/// The index of the first entity with id `id`.
fn find_index(ents: &Vec<Entity>, id: u32) -> (i: usize)
    requires
        has_id(ents@, id),
    ensures
        first_with_id(ents@, id, i as int),
{
    let mut i: usize = 0;
    while i < ents.len()
        invariant
            i <= ents.len(),
            has_id(ents@, id),
            forall|j: int| 0 <= j < i ==> (#[trigger] ents@[j]).id != id,
        decreases ents.len() - i,
    {
        if ents[i].id == id {
            return i;
        }
        i = i + 1;
    }
    proof {
        let k = choose|k: int| 0 <= k < ents@.len() && (#[trigger] ents@[k]).id == id;
        assert(ents@[k].id != id);
    }
    0
}

/// One move on the board: up and left stop at 0, down and right at the
/// last row and column; reset and exit stay.
pub open spec fn board_move(height: usize, width: usize, p: (usize, usize), action: Action) -> (usize, usize) {
    match action {
        Action::Up => (if p.0 > 0 { (p.0 - 1) as usize } else { p.0 }, p.1),
        Action::Down => (if p.0 < height - 1 { (p.0 + 1) as usize } else { p.0 }, p.1),
        Action::Left => (p.0, if p.1 > 0 { (p.1 - 1) as usize } else { p.1 }),
        Action::Right => (p.0, if p.1 < width - 1 { (p.1 + 1) as usize } else { p.1 }),
        Action::Reset => p,
        Action::Exit => p,
    }
}

/// The move can be computed: moving down needs a row, moving right a column.
pub open spec fn move_fits(height: usize, width: usize, action: Action) -> bool {
    &&& action == Action::Down ==> height >= 1
    &&& action == Action::Right ==> width >= 1
}

/// Some goal stands at `pos`.
pub open spec fn goal_at(ents: Seq<Entity>, pos: (usize, usize)) -> bool {
    exists|i: int| 0 <= i < ents.len() && (#[trigger] ents[i]).kind == EntityKind::Goal && ents[i].pos == pos
}

fn apply_move(height: usize, width: usize, p: (usize, usize), action: Action) -> (q: (usize, usize))
    requires
        move_fits(height, width, action),
    ensures
        q == board_move(height, width, p, action),
{
    match action {
        Action::Up => (if p.0 > 0 { p.0 - 1 } else { p.0 }, p.1),
        Action::Down => (if p.0 < height - 1 { p.0 + 1 } else { p.0 }, p.1),
        Action::Left => (p.0, if p.1 > 0 { p.1 - 1 } else { p.1 }),
        Action::Right => (p.0, if p.1 < width - 1 { p.1 + 1 } else { p.1 }),
        Action::Reset => p,
        Action::Exit => p,
    }
}

/// Moves the first entity with the given id and reports where it ends up
/// and whether a goal stands there (before it moved).
pub fn step(grid: &mut Grid, entity_id: u32, action: Action) -> (outcome: ((usize, usize), bool))
    requires
        has_id(old(grid).entities@, entity_id),
        move_fits(old(grid).height, old(grid).width, action),
    ensures
        ({
            let i = choose|i: int| first_with_id(old(grid).entities@, entity_id, i);
            let e = old(grid).entities@[i];
            let to = board_move(old(grid).height, old(grid).width, e.pos, action);
            &&& first_with_id(old(grid).entities@, entity_id, i)
            &&& outcome.0 == to
            &&& outcome.1 == goal_at(old(grid).entities@, to)
            &&& final(grid).entities@ == old(grid).entities@.update(i, Entity { pos: to, ..e })
        }),
        final(grid).width == old(grid).width,
        final(grid).height == old(grid).height,
        final(grid).data@ == old(grid).data@,
        final(grid).agent_start == old(grid).agent_start,
        final(grid).enemy_start == old(grid).enemy_start,
        final(grid).goal_pos == old(grid).goal_pos,
        final(grid).next_id == old(grid).next_id,
        final(grid).player_id == old(grid).player_id,
        final(grid).enemy_id == old(grid).enemy_id,
{
    let i = find_index(&grid.entities, entity_id);
    proof {
        let c = choose|c: int| first_with_id(grid.entities@, entity_id, c);
        assert(c == i) by {
            if c < i {
                assert(grid.entities@[c].id != entity_id);
            } else if c > i {
                assert(grid.entities@[i as int].id != entity_id);
            }
        }
    }
    let e = grid.entities[i];
    let new_pos = apply_move(grid.height, grid.width, e.pos, action);
    let mut done = false;
    let mut k: usize = 0;
    while k < grid.entities.len()
        invariant
            k <= grid.entities.len(),
            done == exists|j: int| 0 <= j < k && (#[trigger] grid.entities@[j]).kind == EntityKind::Goal && grid.entities@[j].pos == new_pos,
        decreases grid.entities.len() - k,
    {
        let o = grid.entities[k];
        if o.kind == EntityKind::Goal && o.pos.0 == new_pos.0 && o.pos.1 == new_pos.1 {
            done = true;
        }
        k = k + 1;
    }
    grid.entities.set(i, Entity { pos: new_pos, ..e });
    (new_pos, done)
}

/// The position of the first entity with id `id`.
pub open spec fn pos_of(ents: Seq<Entity>, id: u32) -> (usize, usize) {
    ents[choose|i: int| first_with_id(ents, id, i)].pos
}

/// Whether the player and the enemy stand on the same cell.
pub fn check_collision(grid: &Grid) -> (b: bool)
    requires
        grid.player_id is Some,
        grid.enemy_id is Some,
        has_id(grid.entities@, grid.player_id->0),
        has_id(grid.entities@, grid.enemy_id->0),
    ensures
        b == (pos_of(grid.entities@, grid.player_id->0) == pos_of(grid.entities@, grid.enemy_id->0)),
{
    let player_id = grid.player_id.unwrap();
    let enemy_id = grid.enemy_id.unwrap();
    let i = find_index(&grid.entities, player_id);
    let j = find_index(&grid.entities, enemy_id);
    proof {
        let a = choose|a: int| first_with_id(grid.entities@, player_id, a);
        assert(a == i) by {
            if a < i {
                assert(grid.entities@[a].id != player_id);
            } else if a > i {
                assert(grid.entities@[i as int].id != player_id);
            }
        }
        let b = choose|b: int| first_with_id(grid.entities@, enemy_id, b);
        assert(b == j) by {
            if b < j {
                assert(grid.entities@[b].id != enemy_id);
            } else if b > j {
                assert(grid.entities@[j as int].id != enemy_id);
            }
        }
    }
    let p = grid.entities[i].pos;
    let q = grid.entities[j].pos;
    p.0 == q.0 && p.1 == q.1
}

/// The move numbered `d`: 0 up, 1 down, 2 left, 3 right; others stay.
pub open spec fn direction_action(d: usize) -> Action {
    if d == 0 {
        Action::Up
    } else if d == 1 {
        Action::Down
    } else if d == 2 {
        Action::Left
    } else if d == 3 {
        Action::Right
    } else {
        Action::Reset
    }
}

/// Moves the enemy one cell in direction `d` (see `direction_action`).
pub fn step_enemy_in_direction(grid: &mut Grid, direction: usize)
    requires
        old(grid).enemy_id is Some,
        has_id(old(grid).entities@, old(grid).enemy_id->0),
        move_fits(old(grid).height, old(grid).width, direction_action(direction)),
    ensures
        ({
            let i = choose|i: int| first_with_id(old(grid).entities@, old(grid).enemy_id->0, i);
            let e = old(grid).entities@[i];
            let to = board_move(old(grid).height, old(grid).width, e.pos, direction_action(direction));
            final(grid).entities@ == old(grid).entities@.update(i, Entity { pos: to, ..e })
        }),
        final(grid).width == old(grid).width,
        final(grid).height == old(grid).height,
        final(grid).data@ == old(grid).data@,
        final(grid).agent_start == old(grid).agent_start,
        final(grid).enemy_start == old(grid).enemy_start,
        final(grid).goal_pos == old(grid).goal_pos,
        final(grid).next_id == old(grid).next_id,
        final(grid).player_id == old(grid).player_id,
        final(grid).enemy_id == old(grid).enemy_id,
{
    let enemy_id = grid.enemy_id.unwrap();
    let action = if direction == 0 {
        Action::Up
    } else if direction == 1 {
        Action::Down
    } else if direction == 2 {
        Action::Left
    } else if direction == 3 {
        Action::Right
    } else {
        Action::Reset
    };
    let _ = step(grid, enemy_id, action);
}

/// Each move on the board goes one cell in its direction when that cell
/// is on the board and stays put at the edge: up lowers the row, down
/// raises it, left lowers the column, right raises it; reset and exit stay.
pub proof fn lemma_board_move_steps(height: usize, width: usize, p: (usize, usize))
    requires
        p.0 < height,
        p.1 < width,
    ensures
        p.0 >= 1 ==> board_move(height, width, p, Action::Up) == ((p.0 - 1) as usize, p.1),
        p.0 == 0 ==> board_move(height, width, p, Action::Up) == p,
        p.0 + 1 < height ==> board_move(height, width, p, Action::Down) == ((p.0 + 1) as usize, p.1),
        p.0 + 1 == height ==> board_move(height, width, p, Action::Down) == p,
        p.1 >= 1 ==> board_move(height, width, p, Action::Left) == (p.0, (p.1 - 1) as usize),
        p.1 == 0 ==> board_move(height, width, p, Action::Left) == p,
        p.1 + 1 < width ==> board_move(height, width, p, Action::Right) == (p.0, (p.1 + 1) as usize),
        p.1 + 1 == width ==> board_move(height, width, p, Action::Right) == p,
        board_move(height, width, p, Action::Reset) == p,
        board_move(height, width, p, Action::Exit) == p,
{
}

/// A step reports the goal exactly when a goal entity stands on the cell
/// it lands on: any goal there counts, and entities of other kinds do not.
pub proof fn lemma_goal_detection(ents: Seq<Entity>, pos: (usize, usize))
    ensures
        (exists|i: int| 0 <= i < ents.len() && ents[i].kind == EntityKind::Goal && ents[i].pos == pos) ==> goal_at(
            ents,
            pos,
        ),
        (forall|i: int| 0 <= i < ents.len() && ents[i].pos == pos ==> ents[i].kind != EntityKind::Goal) ==> !goal_at(
            ents,
            pos,
        ),
{
    if exists|i: int| 0 <= i < ents.len() && ents[i].kind == EntityKind::Goal && ents[i].pos == pos {
        let i = choose|i: int| 0 <= i < ents.len() && ents[i].kind == EntityKind::Goal && ents[i].pos == pos;
        assert(ents[i].kind == EntityKind::Goal);
    }
}

/// The entity a step moves is the first with the id: it has the id, no
/// earlier entity has it, and there is exactly one such position.
pub proof fn lemma_first_with_id_unique(ents: Seq<Entity>, id: u32, i: int, j: int)
    requires
        first_with_id(ents, id, i),
        first_with_id(ents, id, j),
    ensures
        i == j,
        ents[i].id == id,
        forall|k: int| 0 <= k < i ==> ents[k].id != id,
{
    if i < j {
        assert(ents[i].id != id);
    } else if j < i {
        assert(ents[j].id != id);
    }
}

/// A fresh or reset board holds three entities: the player with id 0 at
/// the agent's start, the enemy with id 1 at the enemy's start and the
/// goal with id 2 at the goal cell.
pub proof fn lemma_start_entities(g: Grid)
    ensures
        start_entities(g).len() == 3,
        start_entities(g)[0].id == 0 && start_entities(g)[0].kind == EntityKind::Player && start_entities(g)[0].pos
            == g.agent_start,
        start_entities(g)[1].id == 1 && start_entities(g)[1].kind == EntityKind::Enemy && start_entities(g)[1].pos
            == g.enemy_start,
        start_entities(g)[2].id == 2 && start_entities(g)[2].kind == EntityKind::Goal && start_entities(g)[2].pos
            == g.goal_pos,
{
}

/// The printed board shows `.` on a cell with no entity, and otherwise the
/// letter of the first entity there: `P` for the player, `E` for the
/// enemy, `G` for the goal.
pub proof fn lemma_board_char_cells(ents: Seq<Entity>, pos: (usize, usize), k: int)
    ensures
        (forall|i: int| 0 <= i < ents.len() ==> ents[i].pos != pos) ==> board_char(ents, pos) == '.',
        0 <= k < ents.len() && ents[k].pos == pos && (forall|i: int| 0 <= i < k ==> ents[i].pos != pos) ==> {
            &&& ents[k].kind == EntityKind::Player ==> board_char(ents, pos) == 'P'
            &&& ents[k].kind == EntityKind::Enemy ==> board_char(ents, pos) == 'E'
            &&& ents[k].kind == EntityKind::Goal ==> board_char(ents, pos) == 'G'
        },
    decreases ents.len(),
{
    if ents.len() > 0 {
        lemma_board_char_cells(ents.drop_first(), pos, k - 1);
        assert forall|i: int| 0 <= i < ents.drop_first().len() implies ents.drop_first()[i] == ents[i + 1] by {}
        if 0 < k < ents.len() && ents[k].pos == pos && (forall|i: int| 0 <= i < k ==> ents[i].pos != pos) {
            assert(ents[0].pos != pos);
            assert(ents.drop_first()[k - 1] == ents[k]);
            assert forall|i: int| 0 <= i < k - 1 implies ents.drop_first()[i].pos != pos by {
                assert(ents.drop_first()[i] == ents[i + 1]);
            }
        }
        if forall|i: int| 0 <= i < ents.len() ==> ents[i].pos != pos {
            assert(ents[0].pos != pos);
            assert forall|i: int| 0 <= i < ents.drop_first().len() implies ents.drop_first()[i].pos != pos by {
                assert(ents.drop_first()[i] == ents[i + 1]);
            }
        }
    }
}

/// The four draws of the enemy's random walk are four different moves:
/// 0 goes up, 1 down, 2 left and 3 right, one cell where the board allows.
pub proof fn lemma_enemy_directions(height: usize, width: usize, p: (usize, usize))
    requires
        p.0 < height,
        p.1 < width,
    ensures
        forall|a: usize, b: usize| a < 4 && b < 4 && a != b ==> direction_action(a) != direction_action(b),
        p.0 >= 1 ==> board_move(height, width, p, direction_action(0)) == ((p.0 - 1) as usize, p.1),
        p.0 + 1 < height ==> board_move(height, width, p, direction_action(1)) == ((p.0 + 1) as usize, p.1),
        p.1 >= 1 ==> board_move(height, width, p, direction_action(2)) == (p.0, (p.1 - 1) as usize),
        p.1 + 1 < width ==> board_move(height, width, p, direction_action(3)) == (p.0, (p.1 + 1) as usize),
{
}

/// Moves the enemy one cell in a random direction.
pub fn step_enemy(grid: &mut Grid)
    requires
        old(grid).enemy_id is Some,
        has_id(old(grid).entities@, old(grid).enemy_id->0),
        old(grid).height >= 1,
        old(grid).width >= 1,
    ensures
        exists|d: usize|
            d < 4 && ({
                let i = choose|i: int| first_with_id(old(grid).entities@, old(grid).enemy_id->0, i);
                let e = old(grid).entities@[i];
                let to = board_move(old(grid).height, old(grid).width, e.pos, #[trigger] direction_action(d));
                final(grid).entities@ == old(grid).entities@.update(i, Entity { pos: to, ..e })
            }),
        final(grid).width == old(grid).width,
        final(grid).height == old(grid).height,
        final(grid).data@ == old(grid).data@,
        final(grid).agent_start == old(grid).agent_start,
        final(grid).enemy_start == old(grid).enemy_start,
        final(grid).goal_pos == old(grid).goal_pos,
        final(grid).next_id == old(grid).next_id,
        final(grid).player_id == old(grid).player_id,
        final(grid).enemy_id == old(grid).enemy_id,
{
    let direction = random_below(4);
    step_enemy_in_direction(grid, direction);
}

/// The observation channel of a kind: player 0, enemy 1, goal 2.
pub open spec fn channel_of(kind: EntityKind) -> int {
    match kind {
        EntityKind::Player => 0,
        EntityKind::Enemy => 1,
        EntityKind::Goal => 2,
    }
}

/// Some entity of channel `ch` stands at `pos`.
pub open spec fn occupied_in(ents: Seq<Entity>, ch: int, pos: (usize, usize)) -> bool {
    exists|i: int| 0 <= i < ents.len() && channel_of((#[trigger] ents[i]).kind) == ch && ents[i].pos == pos
}

/// Every entity stands on the board.
pub open spec fn entities_on_board(g: Grid) -> bool {
    forall|i: int| 0 <= i < g.entities@.len() ==> (#[trigger] g.entities@[i]).pos.0 < g.height && g.entities@[i].pos.1 < g.width
}

/// The observation as flags: three channels (player, enemy, goal) of
/// `height` rows and `width` columns, set where an entity of the channel
/// stands.
pub fn observation_flags(grid: &Grid) -> (obs: Vec<Vec<Vec<bool>>>)
    requires
        entities_on_board(*grid),
    ensures
        obs@.len() == 3,
        forall|ch: int|
            0 <= ch < 3 ==> (#[trigger] obs@[ch])@.len() == grid.height && forall|r: int|
                0 <= r < grid.height ==> (#[trigger] obs@[ch]@[r])@.len() == grid.width && forall|c: int|
                    0 <= c < grid.width ==> (#[trigger] obs@[ch]@[r]@[c]) == occupied_in(grid.entities@, ch, (r as usize, c as usize)),
{
    let mut obs: Vec<Vec<Vec<bool>>> = Vec::new();
    let mut ch: usize = 0;
    while ch < 3
        invariant
            ch <= 3,
            obs@.len() == ch,
            forall|cc: int|
                0 <= cc < ch ==> (#[trigger] obs@[cc])@.len() == grid.height && forall|r: int|
                    0 <= r < grid.height ==> (#[trigger] obs@[cc]@[r])@.len() == grid.width && forall|c: int|
                        0 <= c < grid.width ==> (#[trigger] obs@[cc]@[r]@[c]) == occupied_in(grid.entities@, cc, (r as usize, c as usize)),
        decreases 3 - ch,
    {
        let mut layer: Vec<Vec<bool>> = Vec::new();
        let mut r: usize = 0;
        while r < grid.height
            invariant
                r <= grid.height,
                ch < 3,
                layer@.len() == r,
                forall|rr: int|
                    0 <= rr < r ==> (#[trigger] layer@[rr])@.len() == grid.width && forall|c: int|
                        0 <= c < grid.width ==> (#[trigger] layer@[rr]@[c]) == occupied_in(grid.entities@, ch as int, (rr as usize, c as usize)),
            decreases grid.height - r,
        {
            let mut line: Vec<bool> = Vec::new();
            let mut c: usize = 0;
            while c < grid.width
                invariant
                    c <= grid.width,
                    r < grid.height,
                    ch < 3,
                    line@.len() == c,
                    forall|cc: int| 0 <= cc < c ==> #[trigger] line@[cc] == occupied_in(grid.entities@, ch as int, (r as usize, cc as usize)),
                decreases grid.width - c,
            {
                let mut found = false;
                let mut i: usize = 0;
                while i < grid.entities.len()
                    invariant
                        i <= grid.entities.len(),
                        ch < 3,
                        found == exists|j: int|
                            0 <= j < i && channel_of((#[trigger] grid.entities@[j]).kind) == ch && grid.entities@[j].pos == (r, c),
                    decreases grid.entities.len() - i,
                {
                    let e = grid.entities[i];
                    let e_ch: usize = match e.kind {
                        EntityKind::Player => 0,
                        EntityKind::Enemy => 1,
                        EntityKind::Goal => 2,
                    };
                    if e_ch == ch && e.pos.0 == r && e.pos.1 == c {
                        found = true;
                    }
                    i = i + 1;
                }
                line.push(found);
                c = c + 1;
            }
            layer.push(line);
            r = r + 1;
        }
        obs.push(layer);
        ch = ch + 1;
    }
    obs
}

} // verus!
