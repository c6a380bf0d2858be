//! Text views of a world: the whole map, and one entity's fog-of-war view.

use vstd::prelude::*;

use crate::grid_world::entity::{EntityKind, char_kind, kind_char, lemma_kind_round_trip};
use crate::grid_world::layout::{layout_entities, layout_rows, lemma_rows_entities_facts, parsed_world, valid_layout};
use crate::grid_world::text::string_of;
use crate::grid_world::vision;
use crate::grid_world::vision::{visible_set, vision_fits};
use crate::grid_world::world;
use crate::grid_world::world::{
    World,
    first_of_kind,
    occupant_of,
    holds_cell,
    WorldConfig,
    is_first_at,
    discovered_cells,
    first_occupant,
    lists_ids,
    occupant,
    sorted_ids,
    walls,
};

verus! {

broadcast use vstd::std_specs::hash::group_hash_axioms;

/// Every entity with a position has a kind.
pub open spec fn kinds_cover(w: World) -> bool {
    forall|id: u32| #[trigger] w.positions@.contains_key(id) ==> w.kinds@.contains_key(id)
}

/// The character shown for a cell: that of the entity with the smallest
/// id there, or `.` for an empty cell.
pub open spec fn cell_char(w: World, pos: (usize, usize)) -> char {
    match occupant(w.positions@, pos) {
        Some(id) => kind_char(w.kinds@[id]),
        None => '.',
    }
}

/// Row `r` of the map, without its line feed.
pub open spec fn render_row(w: World, r: int) -> Seq<char> {
    Seq::new(w.width as nat, |c: int| cell_char(w, (r as usize, c as usize)))
}

/// The first `n` rows of the map, each ended by a line feed.
pub open spec fn render_rows(w: World, n: int) -> Seq<char>
    decreases n,
{
    if n <= 0 {
        seq![]
    } else {
        render_rows(w, n - 1) + render_row(w, n - 1).push('\n')
    }
}

/// What an entity shows of a cell: the cell itself if it sees it now;
/// if it discovered it before, the terrain there (the one with the smallest
/// id, as in its observation), or floor; `X` otherwise.
pub open spec fn view_char(w: World, id: u32, pos: (usize, usize)) -> char {
    let vis = visible_set(w.height, w.width, walls(w), w.positions@[id], w.perception_ranges@[id]);
    if vis.contains(pos) {
        cell_char(w, pos)
    } else if discovered_cells(w, id).contains(pos) {
        match occupant_of(w.positions@, w.kinds@, pos, false) {
            Some(t) => kind_char(w.kinds@[t]),
            None => '.',
        }
    } else {
        'X'
    }
}

pub open spec fn view_row(w: World, id: u32, r: int) -> Seq<char> {
    Seq::new(w.width as nat, |c: int| view_char(w, id, (r as usize, c as usize)))
}

pub open spec fn view_rows(w: World, id: u32, n: int) -> Seq<char>
    decreases n,
{
    if n <= 0 {
        seq![]
    } else {
        view_rows(w, id, n - 1) + view_row(w, id, n - 1).push('\n')
    }
}

fn cell_char_among(world: &World, ids: &Vec<u32>, pos: (usize, usize)) -> (ch: char)
    requires
        lists_ids(ids@, world.positions@.dom()),
        kinds_cover(*world),
    ensures
        ch == cell_char(*world, pos),
{
    match first_occupant(world, ids, pos) {
        Some(id) => {
            let kind = *world.kinds.get(&id).unwrap();
            kind.to_char()
        },
        None => '.',
    }
}

/// The character shown for the cell at `pos`.
pub fn get_cell_char_by_position(world: &World, pos: (usize, usize)) -> (ch: char)
    requires
        kinds_cover(*world),
    ensures
        ch == cell_char(*world, pos),
{
    let ids = sorted_ids(&world.positions);
    cell_char_among(world, &ids, pos)
}

/// The whole map: one line per row, one character per cell.
pub fn render_world(world: &World) -> (s: String)
    requires
        kinds_cover(*world),
    ensures
        s@ == render_rows(*world, world.height as int),
{
    let ids = sorted_ids(&world.positions);
    let mut out: Vec<char> = Vec::new();
    let mut row: usize = 0;
    while row < world.height
        invariant
            row <= world.height,
            lists_ids(ids@, world.positions@.dom()),
            kinds_cover(*world),
            out@ == render_rows(*world, row as int),
        decreases world.height - row,
    {
        let ghost base = out@;
        let mut col: usize = 0;
        while col < world.width
            invariant
                col <= world.width,
                row < world.height,
                lists_ids(ids@, world.positions@.dom()),
                kinds_cover(*world),
                base == render_rows(*world, row as int),
                out@ == base + render_row(*world, row as int).take(col as int),
            decreases world.width - col,
        {
            let ch = cell_char_among(world, &ids, (row, col));
            out.push(ch);
            assert(render_row(*world, row as int).take(col + 1) =~= render_row(*world, row as int).take(col as int).push(ch));
            assert(out@ =~= base + render_row(*world, row as int).take(col + 1));
            col = col + 1;
        }
        out.push('\n');
        assert(render_row(*world, row as int).take(col as int) =~= render_row(*world, row as int));
        assert(out@ =~= render_rows(*world, row + 1));
        row = row + 1;
    }
    string_of(&out)
}

/// One entity's view of the map: what it sees now, the terrain it has
/// discovered before, and `X` for the cells it never saw.
pub fn render_entity_view(world: &World, entity_id: u32) -> (s: String)
    requires
        kinds_cover(*world),
        world.positions@.contains_key(entity_id),
        world.perception_ranges@.contains_key(entity_id),
        world.discovered@.contains_key(entity_id),
        vision_fits(world.height, world.width, world.positions@[entity_id], world.perception_ranges@[entity_id]),
    ensures
        s@ == view_rows(*world, entity_id, world.height as int),
{
    let pos = *world.positions.get(&entity_id).unwrap();
    let perception_range = *world.perception_ranges.get(&entity_id).unwrap();
    let discovered = world.discovered.get(&entity_id).unwrap();
    let visible_cells = vision::get_visible_cells(world, pos, perception_range);
    let ids = sorted_ids(&world.positions);
    let mut out: Vec<char> = Vec::new();
    let mut row: usize = 0;
    while row < world.height
        invariant
            row <= world.height,
            lists_ids(ids@, world.positions@.dom()),
            kinds_cover(*world),
            pos == world.positions@[entity_id],
            perception_range == world.perception_ranges@[entity_id],
            world.discovered@.contains_key(entity_id),
            *discovered == world.discovered@[entity_id],
            forall|p: (usize, usize)| visible_cells@.contains(p) <==> visible_set(world.height, world.width, walls(*world), pos, perception_range).contains(p),
            out@ == view_rows(*world, entity_id, row as int),
        decreases world.height - row,
    {
        let ghost base = out@;
        let mut col: usize = 0;
        while col < world.width
            invariant
                col <= world.width,
                row < world.height,
                lists_ids(ids@, world.positions@.dom()),
                kinds_cover(*world),
                pos == world.positions@[entity_id],
                perception_range == world.perception_ranges@[entity_id],
                world.discovered@.contains_key(entity_id),
                *discovered == world.discovered@[entity_id],
                forall|p: (usize, usize)| visible_cells@.contains(p) <==> visible_set(world.height, world.width, walls(*world), pos, perception_range).contains(p),
                base == view_rows(*world, entity_id, row as int),
                out@ == base + view_row(*world, entity_id, row as int).take(col as int),
            decreases world.width - col,
        {
            let cell = (row, col);
            let ch = if world::holds_cell(&visible_cells, cell) {
                cell_char_among(world, &ids, cell)
            } else if world::holds_cell(discovered, cell) {
                match first_of_kind(world, &ids, cell, false) {
                    Some(t) => world.kinds.get(&t).unwrap().to_char(),
                    None => '.',
                }
            } else {
                'X'
            };
            assert(ch == view_char(*world, entity_id, cell)) by {
                assert(discovered_cells(*world, entity_id) == discovered@.to_set());
            }
            out.push(ch);
            assert(view_row(*world, entity_id, row as int).take(col + 1) =~= view_row(*world, entity_id, row as int).take(col as int).push(ch));
            assert(out@ =~= base + view_row(*world, entity_id, row as int).take(col + 1));
            col = col + 1;
        }
        out.push('\n');
        assert(view_row(*world, entity_id, row as int).take(col as int) =~= view_row(*world, entity_id, row as int));
        assert(out@ =~= view_rows(*world, entity_id, row + 1));
        row = row + 1;
    }
    string_of(&out)
}


/// The character of a cell on the map seen from `from`: the cell itself
/// if it is visible, `X` otherwise.
pub open spec fn sight_char(w: World, from: (usize, usize), r: usize, pos: (usize, usize)) -> char {
    if visible_set(w.height, w.width, walls(w), from, r).contains(pos) {
        cell_char(w, pos)
    } else {
        'X'
    }
}

pub open spec fn sight_row(w: World, from: (usize, usize), r: usize, row: int) -> Seq<char> {
    Seq::new(w.width as nat, |c: int| sight_char(w, from, r, (row as usize, c as usize)))
}

/// The first `n` rows of the map seen from `from`, each ended by a line
/// feed.
pub open spec fn sight_rows(w: World, from: (usize, usize), r: usize, n: int) -> Seq<char>
    decreases n,
{
    if n <= 0 {
        seq![]
    } else {
        sight_rows(w, from, r, n - 1) + sight_row(w, from, r, n - 1).push('\n')
    }
}

/// The map as seen from `from` within `perception_range`: visible cells as
/// on the map, the others `X`, one line per row.
pub fn render_visible_cells(world: &World, from: (usize, usize), perception_range: usize) -> (s: String)
    requires
        kinds_cover(*world),
        vision_fits(world.height, world.width, from, perception_range),
    ensures
        s@ == sight_rows(*world, from, perception_range, world.height as int),
{
    let visible = vision::get_visible_cells(world, from, perception_range);
    let ids = sorted_ids(&world.positions);
    let mut out: Vec<char> = Vec::new();
    let mut row: usize = 0;
    while row < world.height
        invariant
            row <= world.height,
            lists_ids(ids@, world.positions@.dom()),
            kinds_cover(*world),
            forall|p: (usize, usize)|
                visible@.contains(p) <==> visible_set(world.height, world.width, walls(*world), from, perception_range).contains(p),
            out@ == sight_rows(*world, from, perception_range, row as int),
        decreases world.height - row,
    {
        let ghost base = out@;
        let mut col: usize = 0;
        while col < world.width
            invariant
                col <= world.width,
                row < world.height,
                lists_ids(ids@, world.positions@.dom()),
                kinds_cover(*world),
                forall|p: (usize, usize)|
                    visible@.contains(p) <==> visible_set(world.height, world.width, walls(*world), from, perception_range).contains(p),
                base == sight_rows(*world, from, perception_range, row as int),
                out@ == base + sight_row(*world, from, perception_range, row as int).take(col as int),
            decreases world.width - col,
        {
            let ch = if holds_cell(&visible, (row, col)) {
                cell_char_among(world, &ids, (row, col))
            } else {
                'X'
            };
            out.push(ch);
            let ghost line = sight_row(*world, from, perception_range, row as int);
            assert(line.take(col + 1) =~= line.take(col as int).push(ch));
            assert(out@ =~= base + line.take(col + 1));
            col = col + 1;
        }
        out.push('\n');
        assert(sight_row(*world, from, perception_range, row as int).take(col as int) =~= sight_row(
            *world,
            from,
            perception_range,
            row as int,
        ));
        assert(out@ =~= sight_rows(*world, from, perception_range, row + 1));
        row = row + 1;
    }
    string_of(&out)
}

/// What a window draws at a cell for a viewer that sees `visible` now and
/// has discovered `discovered`: a mover standing there if the cell is in
/// sight (the one with the smallest id), otherwise terrain standing there
/// if the cell was discovered (the one with the smallest id), otherwise
/// nothing.
pub open spec fn drawn_kind(
    w: World,
    visible: Seq<(usize, usize)>,
    discovered: Seq<(usize, usize)>,
    pos: (usize, usize),
) -> Option<EntityKind> {
    let mover = occupant_of(w.positions@, w.kinds@, pos, true);
    let terrain = occupant_of(w.positions@, w.kinds@, pos, false);
    if visible.contains(pos) && mover is Some {
        Some(w.kinds@[mover->0])
    } else if discovered.contains(pos) && terrain is Some {
        Some(w.kinds@[terrain->0])
    } else {
        None
    }
}

fn drawn_kind_at(
    world: &World,
    ids: &Vec<u32>,
    visible: &Vec<(usize, usize)>,
    discovered: &Vec<(usize, usize)>,
    pos: (usize, usize),
) -> (k: Option<EntityKind>)
    requires
        lists_ids(ids@, world.positions@.dom()),
        kinds_cover(*world),
    ensures
        k == drawn_kind(*world, visible@, discovered@, pos),
{
    if holds_cell(visible, pos) {
        if let Some(m) = first_of_kind(world, ids, pos, true) {
            return Some(*world.kinds.get(&m).unwrap());
        }
    }
    if holds_cell(discovered, pos) {
        if let Some(t) = first_of_kind(world, ids, pos, false) {
            return Some(*world.kinds.get(&t).unwrap());
        }
    }
    None
}

/// What a window draws at every cell (see `drawn_kind`), row by row.
pub fn drawn_kinds(world: &World, visible: &Vec<(usize, usize)>, discovered: &Vec<(usize, usize)>) -> (kinds: Vec<
    Vec<Option<EntityKind>>,
>)
    requires
        kinds_cover(*world),
    ensures
        kinds@.len() == world.height,
        forall|r: int|
            0 <= r < world.height ==> (#[trigger] kinds@[r])@.len() == world.width && forall|c: int|
                0 <= c < world.width ==> kinds@[r]@[c] == drawn_kind(*world, visible@, discovered@, (r as usize, c as usize)),
{
    let ids = sorted_ids(&world.positions);
    let mut kinds: Vec<Vec<Option<EntityKind>>> = Vec::new();
    let mut row: usize = 0;
    while row < world.height
        invariant
            row <= world.height,
            kinds@.len() == row,
            lists_ids(ids@, world.positions@.dom()),
            kinds_cover(*world),
            forall|r: int|
                0 <= r < row ==> (#[trigger] kinds@[r])@.len() == world.width && forall|c: int|
                    0 <= c < world.width ==> kinds@[r]@[c] == drawn_kind(*world, visible@, discovered@, (r as usize, c as usize)),
        decreases world.height - row,
    {
        let mut line: Vec<Option<EntityKind>> = Vec::new();
        let mut col: usize = 0;
        while col < world.width
            invariant
                col <= world.width,
                line@.len() == col,
                lists_ids(ids@, world.positions@.dom()),
                kinds_cover(*world),
                forall|c: int| 0 <= c < col ==> line@[c] == drawn_kind(*world, visible@, discovered@, (row as usize, c as usize)),
            decreases world.width - col,
        {
            let k = drawn_kind_at(world, &ids, visible, discovered, (row, col));
            line.push(k);
            col = col + 1;
        }
        kinds.push(line);
        row = row + 1;
    }
    kinds
}

/// Rows each followed by a line feed.
pub open spec fn lines_text(rows: Seq<Seq<char>>, n: int) -> Seq<char>
    decreases n,
{
    if n <= 0 {
        seq![]
    } else {
        lines_text(rows, n - 1) + rows[n - 1].push('\n')
    }
}

/// The character that stands for an observed cell code: `X` for a cell
/// never seen, `.` for floor, else that of the kind the code stands for.
pub open spec fn code_char(code: i32) -> char {
    if code == 1 {
        '#'
    } else if code == 2 {
        'P'
    } else if code == 3 {
        'E'
    } else if code == 4 {
        'T'
    } else if code == 5 {
        'G'
    } else if code == 0 {
        '.'
    } else {
        'X'
    }
}

/// An entity's view and its observation agree on every cell it does not
/// see now: `X` where it never looked, and else the terrain it remembers
/// there, or floor.
pub proof fn lemma_view_matches_observation(w: World, id: u32, pos: (usize, usize))
    requires
        !visible_set(w.height, w.width, walls(w), w.positions@[id], w.perception_ranges@[id]).contains(pos),
    ensures
        view_char(w, id, pos) == code_char(world::observed_value(w, id, pos)),
{
    if discovered_cells(w, id).contains(pos) {
        match occupant_of(w.positions@, w.kinds@, pos, false) {
            Some(t) => {
                let k = w.kinds@[t];
                assert(code_char(world::cell_code(k)) == kind_char(k)) by {
                    match k {
                        EntityKind::Wall => {},
                        EntityKind::Player => {},
                        EntityKind::Enemy => {},
                        EntityKind::Trap => {},
                        EntityKind::Goal => {},
                    }
                }
            },
            None => {},
        }
    }
}

/// Rendering a freshly parsed world gives its layout back: each row of the
/// map is the matching trimmed line of the layout, and the whole map is
/// those lines, each ended by a line feed.
pub proof fn lemma_render_parsed(w: World, text: Seq<char>, config: WorldConfig)
    requires
        valid_layout(text),
        parsed_world(w, text, config),
    ensures
        forall|r: int| 0 <= r < w.height ==> #[trigger] render_row(w, r) == layout_rows(text)[r],
        render_rows(w, w.height as int) == lines_text(layout_rows(text), w.height as int),
{
    let rows = layout_rows(text);
    let ents = layout_entities(text);
    let n = rows.len() as int;
    assert forall|r: int| 0 <= r < rows.len() implies (#[trigger] rows[r]).len() <= usize::MAX by {
        assert(rows[r].len() == rows[0].len());
    }
    lemma_rows_entities_facts(rows, n);
    assert forall|r: int| 0 <= r < w.height implies #[trigger] render_row(w, r) == rows[r] by {
        assert forall|c: int| 0 <= c < w.width implies render_row(w, r)[c] == rows[r][c] by {
            assert(rows[r].len() == rows[0].len());
            let pos = (r as usize, c as usize);
            let ch = rows[r][c];
            lemma_kind_round_trip(ch);
            if char_kind(ch) is Some {
                let i = choose|i: int| 0 <= i < ents.len() && (#[trigger] ents[i]).0 == pos;
                let id = i as u32;
                assert(w.positions@.contains_key(id));
                assert(w.positions@[id] == pos);
                assert forall|o: u32| #[trigger] w.positions@.contains_key(o) && w.positions@[o] == pos implies id <= o by {
                    if (o as int) < i {
                        assert(lex_before_pos(ents[o as int].0, ents[i].0));
                    } else if (o as int) > i {
                        assert(lex_before_pos(ents[i].0, ents[o as int].0));
                    }
                }
                assert(is_first_at(w.positions@, pos, id));
                let chosen = choose|x: u32| is_first_at(w.positions@, pos, x);
                assert(chosen == id) by {
                    assert(is_first_at(w.positions@, pos, chosen));
                    assert(chosen <= id && id <= chosen);
                }
                assert(occupant(w.positions@, pos) == Some(id));
                assert(w.kinds@[id] == ents[i].1);
            } else {
                assert forall|x: u32| !is_first_at(w.positions@, pos, x) by {
                    if is_first_at(w.positions@, pos, x) {
                        assert(ents[x as int].0 == pos);
                    }
                }
                assert(occupant(w.positions@, pos) is None);
            }
        }
        assert(render_row(w, r) =~= rows[r]);
    }
    lemma_render_rows(w, rows, w.height as int);
}

/// Two cells in row-major order.
pub open spec fn lex_before_pos(a: (usize, usize), b: (usize, usize)) -> bool {
    a.0 < b.0 || (a.0 == b.0 && a.1 < b.1)
}

proof fn lemma_render_rows(w: World, rows: Seq<Seq<char>>, n: int)
    requires
        0 <= n <= w.height,
        forall|r: int| 0 <= r < w.height ==> #[trigger] render_row(w, r) == rows[r],
    ensures
        render_rows(w, n) == lines_text(rows, n),
    decreases n,
{
    if n > 0 {
        lemma_render_rows(w, rows, n - 1);
        assert(render_row(w, n - 1) == rows[n - 1]);
    }
}

} // verus!
