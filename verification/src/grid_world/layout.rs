//! Layouts: the one-character-per-cell text format of a level, its parsing
//! into a world, its reachability check, and the random generation and
//! mutation of layouts.

use vstd::prelude::*;
use std::collections::HashMap;

use crate::grid_world::entity::{EntityKind, char_kind, is_mover};
use crate::chance::{choose_several, random_below};
use crate::grid_world::text::{
    is_ws, lead_ws, trail_ws, spec_lines, trim, split_lines, trim_chars, str_chars, string_of, strip_cr, has_no_newline,
    rows_without_newline, lemma_lines_no_newline, lemma_lines_at_newline,
};
use crate::grid_world::world;
use crate::grid_world::world::{World, WorldConfig, wf, sizes_fit, range_fits};

verus! {

broadcast use vstd::std_specs::hash::group_hash_axioms;

/// A character of the layout format: a kind, or `.` for empty floor.
pub open spec fn is_layout_char(c: char) -> bool {
    c == '.' || char_kind(c) is Some
}

/// The rows of a layout as `parse_layout` reads them: its lines, trimmed.
pub open spec fn layout_rows(text: Seq<char>) -> Seq<Seq<char>> {
    spec_lines(text).map_values(|l: Seq<char>| trim(l))
}

/// A layout that parses: at least one line, every trimmed line as long as
/// the first, and only layout characters.
pub open spec fn valid_layout(text: Seq<char>) -> bool {
    let rows = layout_rows(text);
    &&& rows.len() >= 1
    &&& forall|i: int| 0 <= i < rows.len() ==> (#[trigger] rows[i]).len() == rows[0].len()
    &&& forall|i: int, j: int| 0 <= i < rows.len() && 0 <= j < rows[i].len() ==> is_layout_char(#[trigger] rows[i][j])
}

/// The entities of one row, left to right, from column 0 to `row.len()`.
pub open spec fn row_entities(row: Seq<char>, r: int) -> Seq<((usize, usize), EntityKind)>
    decreases row.len(),
{
    if row.len() == 0 {
        seq![]
    } else {
        let c = row.len() - 1;
        let rest = row_entities(row.drop_last(), r);
        match char_kind(row.last()) {
            Some(k) => rest.push(((r as usize, c as usize), k)),
            None => rest,
        }
    }
}

/// The entities of the first `n` rows, in row-major order.
pub open spec fn rows_entities(rows: Seq<Seq<char>>, n: int) -> Seq<((usize, usize), EntityKind)>
    decreases n,
{
    if n <= 0 {
        seq![]
    } else {
        rows_entities(rows, n - 1) + row_entities(rows[n - 1], n - 1)
    }
}

/// The entities of a layout in row-major order; the `i`-th gets id `i`.
pub open spec fn layout_entities(text: Seq<char>) -> Seq<((usize, usize), EntityKind)> {
    let rows = layout_rows(text);
    rows_entities(rows, rows.len() as int)
}

/// The perception range a configuration gives to a kind.
pub open spec fn range_of(config: WorldConfig, kind: EntityKind) -> usize {
    if kind == EntityKind::Player {
        config.player_perception_range
    } else {
        config.enemy_perception_range
    }
}

/// `w` is the fresh world that parsing `text` with `config` builds: the
/// grid of its trimmed lines, entity `i` the `i`-th non-floor cell in
/// row-major order, movers perceiving with the configured range and having
/// discovered nothing yet, at tick 0 and not done.
pub open spec fn parsed_world(w: World, text: Seq<char>, config: WorldConfig) -> bool {
    let rows = layout_rows(text);
    let ents = layout_entities(text);
    &&& w.height == rows.len()
    &&& w.width == rows[0].len()
    &&& w.next_id == ents.len()
    &&& w.positions@ == Map::new(|id: u32| id < ents.len(), |id: u32| ents[id as int].0)
    &&& w.kinds@ == Map::new(|id: u32| id < ents.len(), |id: u32| ents[id as int].1)
    &&& w.perception_ranges@ == Map::new(
        |id: u32| id < ents.len() && is_mover(ents[id as int].1),
        |id: u32| range_of(config, ents[id as int].1),
    )
    &&& w.discovered@.dom() == w.perception_ranges@.dom()
    &&& forall|id: u32| #[trigger] w.discovered@.contains_key(id) ==> w.discovered@[id]@ == Seq::<(usize, usize)>::empty()
    &&& w.layout@ == text
    &&& !w.done
    &&& w.end_reason == None::<world::EndReason>
    &&& w.tick == 0
    &&& w.config == config
}

/// A parsed world gives each enemy the configured enemy range and each
/// player the configured player range; exactly the movers perceive.
pub proof fn lemma_parsed_ranges(w: World, text: Seq<char>, config: WorldConfig)
    requires
        parsed_world(w, text, config),
    ensures
        forall|id: u32|
            #[trigger] w.kinds@.contains_key(id) && w.kinds@[id] == EntityKind::Enemy ==> w.perception_ranges@.contains_key(
                id,
            ) && w.perception_ranges@[id] == config.enemy_perception_range,
        forall|id: u32|
            #[trigger] w.kinds@.contains_key(id) && w.kinds@[id] == EntityKind::Player ==> w.perception_ranges@.contains_key(
                id,
            ) && w.perception_ranges@[id] == config.player_perception_range,
        forall|id: u32|
            #[trigger] w.perception_ranges@.contains_key(id) <==> w.kinds@.contains_key(id) && (w.kinds@[id]
                == EntityKind::Player || w.kinds@[id] == EntityKind::Enemy),
{
}

/// Resetting is deterministic: any two worlds that are the fresh world of
/// the same layout and configuration agree on every component, so a reset
/// restores the same start whatever state the world was in.
pub proof fn lemma_parsed_world_unique(w1: World, w2: World, text: Seq<char>, config: WorldConfig)
    requires
        parsed_world(w1, text, config),
        parsed_world(w2, text, config),
    ensures
        w1.height == w2.height,
        w1.width == w2.width,
        w1.next_id == w2.next_id,
        w1.positions@ == w2.positions@,
        w1.kinds@ == w2.kinds@,
        w1.perception_ranges@ == w2.perception_ranges@,
        w1.discovered@.dom() == w2.discovered@.dom(),
        forall|id: u32| #[trigger] w1.discovered@.contains_key(id) ==> w1.discovered@[id]@ == w2.discovered@[id]@,
        w1.layout@ == w2.layout@,
        w1.done == w2.done,
        w1.end_reason == w2.end_reason,
        w1.tick == w2.tick,
        w1.config == w2.config,
{
    assert forall|id: u32| #[trigger] w1.discovered@.contains_key(id) implies w1.discovered@[id]@ == w2.discovered@[id]@ by {
        assert(w2.discovered@.contains_key(id));
    }
}

proof fn lemma_row_entities_take(t: Seq<char>, c: int, r: int)
    requires
        0 <= c < t.len(),
    ensures
        row_entities(t.take(c + 1), r) == match char_kind(t[c]) {
            Some(k) => row_entities(t.take(c), r).push(((r as usize, c as usize), k)),
            None => row_entities(t.take(c), r),
        },
{
    assert(t.take(c + 1).drop_last() =~= t.take(c));
}

proof fn lemma_row_len_mono(t: Seq<char>, c1: int, c2: int, r: int)
    requires
        0 <= c1 <= c2 <= t.len(),
    ensures
        row_entities(t.take(c1), r).len() <= row_entities(t.take(c2), r).len(),
    decreases c2 - c1,
{
    if c1 < c2 {
        lemma_row_len_mono(t, c1, c2 - 1, r);
        lemma_row_entities_take(t, c2 - 1, r);
    }
}

proof fn lemma_rows_len_mono(rows: Seq<Seq<char>>, n1: int, n2: int)
    requires
        0 <= n1 <= n2,
    ensures
        rows_entities(rows, n1).len() <= rows_entities(rows, n2).len(),
    decreases n2 - n1,
{
    if n1 < n2 {
        lemma_rows_len_mono(rows, n1, n2 - 1);
    }
}

/// The entities of a row stand in that row, at increasing columns, each on
/// a cell whose character is its kind, and every such cell has one.
proof fn lemma_row_entities_facts(row: Seq<char>, r: int)
    requires
        0 <= r <= usize::MAX,
        row.len() <= usize::MAX,
    ensures
        forall|i: int|
            0 <= i < row_entities(row, r).len() ==> {
                let e = #[trigger] row_entities(row, r)[i];
                &&& e.0.0 as int == r
                &&& (e.0.1 as int) < row.len()
                &&& char_kind(row[e.0.1 as int]) == Some(e.1)
            },
        forall|i: int, j: int|
            0 <= i < j < row_entities(row, r).len() ==> (#[trigger] row_entities(row, r)[i]).0.1 < (
            #[trigger] row_entities(row, r)[j]).0.1,
        forall|c: int|
            0 <= c < row.len() && (#[trigger] char_kind(row[c])) is Some ==> exists|i: int|
                0 <= i < row_entities(row, r).len() && (#[trigger] row_entities(row, r)[i]).0.1 as int == c,
    decreases row.len(),
{
    if row.len() > 0 {
        let t = row.drop_last();
        let n = row.len() - 1;
        lemma_row_entities_facts(t, r);
        let rest = row_entities(t, r);
        let cur = row_entities(row, r);
        assert forall|k: int| 0 <= k < t.len() implies t[k] == row[k] by {}
        assert forall|i: int| 0 <= i < cur.len() implies {
            let e = #[trigger] cur[i];
            &&& e.0.0 as int == r
            &&& (e.0.1 as int) < row.len()
            &&& char_kind(row[e.0.1 as int]) == Some(e.1)
        } by {
            if i < rest.len() {
                assert(cur[i] == rest[i]);
                assert(row[rest[i].0.1 as int] == t[rest[i].0.1 as int]);
            }
        }
        assert forall|i: int, j: int| 0 <= i < j < cur.len() implies (#[trigger] cur[i]).0.1 < (#[trigger] cur[j]).0.1 by {
            assert(cur[i] == rest[i]);
            if j < rest.len() {
                assert(cur[j] == rest[j]);
            } else {
                assert(rest[i].0.1 < n);
            }
        }
        assert forall|c: int| 0 <= c < row.len() && (#[trigger] char_kind(row[c])) is Some implies exists|i: int|
            0 <= i < cur.len() && (#[trigger] cur[i]).0.1 as int == c by {
            if c < n {
                assert(char_kind(t[c]) is Some);
                let i = choose|i: int| 0 <= i < rest.len() && (#[trigger] rest[i]).0.1 as int == c;
                assert(cur[i] == rest[i]);
            } else {
                assert(cur[rest.len() as int].0.1 as int == c);
            }
        }
    }
}

/// The entities of the first `n` rows stand in those rows, in row-major
/// order, each on a cell whose character is its kind, and every such cell
/// has one.
pub(crate) proof fn lemma_rows_entities_facts(rows: Seq<Seq<char>>, n: int)
    requires
        0 <= n <= rows.len(),
        rows.len() <= usize::MAX,
        forall|r: int| 0 <= r < rows.len() ==> (#[trigger] rows[r]).len() <= usize::MAX,
    ensures
        forall|i: int|
            0 <= i < rows_entities(rows, n).len() ==> {
                let e = #[trigger] rows_entities(rows, n)[i];
                &&& (e.0.0 as int) < n
                &&& (e.0.1 as int) < rows[e.0.0 as int].len()
                &&& char_kind(rows[e.0.0 as int][e.0.1 as int]) == Some(e.1)
            },
        forall|i: int, j: int|
            0 <= i < j < rows_entities(rows, n).len() ==> lex_before(
                ((#[trigger] rows_entities(rows, n)[i]).0.0 as int, rows_entities(rows, n)[i].0.1 as int),
                ((#[trigger] rows_entities(rows, n)[j]).0.0 as int, rows_entities(rows, n)[j].0.1 as int),
            ),
        forall|r: int, c: int|
            0 <= r < n && 0 <= c < rows[r].len() && (#[trigger] char_kind(rows[r][c])) is Some ==> exists|i: int|
                0 <= i < rows_entities(rows, n).len() && (#[trigger] rows_entities(rows, n)[i]).0 == (r as usize, c as usize),
    decreases n,
{
    if n > 0 {
        lemma_rows_entities_facts(rows, n - 1);
        let r0 = n - 1;
        lemma_row_entities_facts(rows[r0], r0);
        let a = rows_entities(rows, n - 1);
        let b = row_entities(rows[r0], r0);
        let s = rows_entities(rows, n);
        assert(s == a + b);
        assert forall|i: int| 0 <= i < s.len() implies {
            let e = #[trigger] s[i];
            &&& (e.0.0 as int) < n
            &&& (e.0.1 as int) < rows[e.0.0 as int].len()
            &&& char_kind(rows[e.0.0 as int][e.0.1 as int]) == Some(e.1)
        } by {
            if i < a.len() {
                assert(s[i] == a[i]);
            } else {
                assert(s[i] == b[i - a.len()]);
            }
        }
        assert forall|i: int, j: int| 0 <= i < j < s.len() implies lex_before(
            ((#[trigger] s[i]).0.0 as int, s[i].0.1 as int),
            ((#[trigger] s[j]).0.0 as int, s[j].0.1 as int),
        ) by {
            if j < a.len() {
                assert(s[i] == a[i] && s[j] == a[j]);
            } else if i < a.len() {
                assert(s[i] == a[i] && s[j] == b[j - a.len()]);
            } else {
                assert(s[i] == b[i - a.len()] && s[j] == b[j - a.len()]);
            }
        }
        assert forall|r: int, c: int|
            0 <= r < n && 0 <= c < rows[r].len() && (#[trigger] char_kind(rows[r][c])) is Some implies exists|i: int|
                0 <= i < s.len() && (#[trigger] s[i]).0 == (r as usize, c as usize) by {
            if r < n - 1 {
                let i = choose|i: int| 0 <= i < a.len() && (#[trigger] a[i]).0 == (r as usize, c as usize);
                assert(s[i] == a[i]);
            } else {
                let i = choose|i: int| 0 <= i < b.len() && (#[trigger] b[i]).0.1 as int == c;
                assert(s[a.len() + i] == b[i]);
                assert(b[i].0.0 as int == r);
            }
        }
    }
}

/// Whether a text parses as a layout.
pub fn is_valid_layout(layout: &str) -> (b: bool)
    ensures
        b == valid_layout(layout@),
{
    let text = str_chars(layout);
    let lines = split_lines(&text);
    let ghost rows = layout_rows(layout@);
    if lines.len() == 0 {
        return false;
    }
    let first = trim_chars(&lines[0]);
    let width = first.len();
    let mut i: usize = 0;
    while i < lines.len()
        invariant
            i <= lines.len(),
            lines@.len() == rows.len(),
            rows == layout_rows(layout@),
            forall|k: int| 0 <= k < lines@.len() ==> #[trigger] lines@[k]@ == spec_lines(layout@)[k],
            width == rows[0].len(),
            forall|k: int| 0 <= k < i ==> (#[trigger] rows[k]).len() == width,
            forall|k: int, j: int| 0 <= k < i && 0 <= j < rows[k].len() ==> is_layout_char(#[trigger] rows[k][j]),
        decreases lines.len() - i,
    {
        let row = trim_chars(&lines[i]);
        assert(row@ == rows[i as int]);
        if row.len() != width {
            return false;
        }
        let mut j: usize = 0;
        while j < row.len()
            invariant
                j <= row.len(),
                i < rows.len(),
                rows == layout_rows(layout@),
                row@ == rows[i as int],
                forall|jj: int| 0 <= jj < j ==> is_layout_char(#[trigger] rows[i as int][jj]),
            decreases row.len() - j,
        {
            let c = row[j];
            if !(c == '.' || EntityKind::from_char(c).is_some()) {
                assert(!is_layout_char(rows[i as int][j as int]));
                return false;
            }
            j = j + 1;
        }
        i = i + 1;
    }
    true
}

/// Builds the world a layout describes (see `parsed_world`).
pub fn parse_layout(layout: &str, config: &WorldConfig) -> (w: World)
    requires
        valid_layout(layout@),
        layout_entities(layout@).len() <= u32::MAX,
    ensures
        parsed_world(w, layout@, *config),
        sizes_fit(w.height, w.width) && range_fits(config.player_perception_range) && range_fits(
            config.enemy_perception_range,
        ) ==> wf(w),
{
    let ghost rows = layout_rows(layout@);
    let ghost total = layout_entities(layout@);
    let text = str_chars(layout);
    let lines = split_lines(&text);
    let height = lines.len();
    let first = trim_chars(&lines[0]);
    let width = first.len();
    let mut world = World {
        width,
        height,
        next_id: 0,
        positions: HashMap::new(),
        kinds: HashMap::new(),
        discovered: HashMap::new(),
        perception_ranges: HashMap::new(),
        layout: layout.to_owned(),
        done: false,
        end_reason: None,
        tick: 0,
        config: *config,
    };
    let mut row: usize = 0;
    let ghost mut sofar: Seq<((usize, usize), EntityKind)> = seq![];
    assert(world.positions@ =~= Map::new(|id: u32| id < sofar.len(), |id: u32| sofar[id as int].0));
    assert(world.kinds@ =~= Map::new(|id: u32| id < sofar.len(), |id: u32| sofar[id as int].1));
    assert(world.perception_ranges@ =~= Map::new(
        |id: u32| id < sofar.len() && is_mover(sofar[id as int].1),
        |id: u32| range_of(*config, sofar[id as int].1),
    ));
    while row < height
        invariant
            row <= height,
            height == lines@.len(),
            lines@.len() == rows.len(),
            rows == layout_rows(layout@),
            total == layout_entities(layout@),
            total == rows_entities(rows, rows.len() as int),
            total.len() <= u32::MAX,
            valid_layout(layout@),
            forall|k: int| 0 <= k < lines@.len() ==> #[trigger] lines@[k]@ == spec_lines(layout@)[k],
            width == rows[0].len(),
            world.width == width,
            world.height == height,
            world.layout@ == layout@,
            !world.done,
            world.end_reason == None::<world::EndReason>,
            world.tick == 0,
            world.config == *config,
            sofar == rows_entities(rows, row as int),
            world.next_id == sofar.len(),
            world.positions@ == Map::new(|id: u32| id < sofar.len(), |id: u32| sofar[id as int].0),
            world.kinds@ == Map::new(|id: u32| id < sofar.len(), |id: u32| sofar[id as int].1),
            world.perception_ranges@ == Map::new(
                |id: u32| id < sofar.len() && is_mover(sofar[id as int].1),
                |id: u32| range_of(*config, sofar[id as int].1),
            ),
            world.discovered@.dom() == world.perception_ranges@.dom(),
            forall|id: u32| #[trigger] world.discovered@.contains_key(id) ==> world.discovered@[id]@ == Seq::<(usize, usize)>::empty(),
            forall|k: int| 0 <= k < sofar.len() ==> (#[trigger] sofar[k]).0.0 < height && sofar[k].0.1 < width,
        decreases height - row,
    {
        let line = trim_chars(&lines[row]);
        assert(line@ == rows[row as int]);
        let mut col: usize = 0;
        let ghost base = sofar;
        assert(line@.take(0) =~= Seq::<char>::empty());
        assert(base + row_entities(line@.take(0), row as int) =~= base);
        while col < line.len()
            invariant
                col <= line.len(),
                row < height,
                line@ == rows[row as int],
                line@.len() == width,
                height == lines@.len(),
                lines@.len() == rows.len(),
                rows == layout_rows(layout@),
                total == rows_entities(rows, rows.len() as int),
                total.len() <= u32::MAX,
                base == rows_entities(rows, row as int),
                sofar == base + row_entities(line@.take(col as int), row as int),
                world.width == width,
                world.height == height,
                world.layout@ == layout@,
                !world.done,
                world.end_reason == None::<world::EndReason>,
                world.tick == 0,
                world.config == *config,
                world.next_id == sofar.len(),
                world.positions@ == Map::new(|id: u32| id < sofar.len(), |id: u32| sofar[id as int].0),
                world.kinds@ == Map::new(|id: u32| id < sofar.len(), |id: u32| sofar[id as int].1),
                world.perception_ranges@ == Map::new(
                    |id: u32| id < sofar.len() && is_mover(sofar[id as int].1),
                    |id: u32| range_of(*config, sofar[id as int].1),
                ),
                world.discovered@.dom() == world.perception_ranges@.dom(),
                forall|id: u32| #[trigger] world.discovered@.contains_key(id) ==> world.discovered@[id]@ == Seq::<(usize, usize)>::empty(),
                forall|k: int| 0 <= k < sofar.len() ==> (#[trigger] sofar[k]).0.0 < height && sofar[k].0.1 < width,
            decreases line.len() - col,
        {
            let ch = line[col];
            proof {
                lemma_row_entities_take(line@, col as int, row as int);
            }
            match EntityKind::from_char(ch) {
                Some(kind) => {
                    proof {
                        lemma_row_len_mono(line@, col + 1, line@.len() as int, row as int);
                        assert(line@.take(line@.len() as int) =~= line@);
                        lemma_rows_len_mono(rows, row + 1, rows.len() as int);
                        assert(rows_entities(rows, row + 1) == base + row_entities(line@, row as int));
                    }
                    let ghost old_sofar = sofar;
                    let id = world::spawn_entity(&mut world, kind, (row, col));
                    if kind == EntityKind::Player {
                        world.perception_ranges.insert(id, config.player_perception_range);
                        world.discovered.insert(id, Vec::new());
                    } else if kind == EntityKind::Enemy {
                        world.perception_ranges.insert(id, config.enemy_perception_range);
                        world.discovered.insert(id, Vec::new());
                    }
                    proof {
                        sofar = sofar.push(((row, col), kind));
                        assert(sofar == base + row_entities(line@.take(col + 1), row as int)) by {
                            assert(base + old_sofar.skip(base.len() as int).push(((row, col), kind)) =~= old_sofar.push(((row, col), kind)));
                            assert(old_sofar.skip(base.len() as int) =~= row_entities(line@.take(col as int), row as int));
                        }
                        assert(world.positions@ =~= Map::new(|x: u32| x < sofar.len(), |x: u32| sofar[x as int].0));
                        assert(world.kinds@ =~= Map::new(|x: u32| x < sofar.len(), |x: u32| sofar[x as int].1));
                        assert(world.perception_ranges@ =~= Map::new(
                            |x: u32| x < sofar.len() && is_mover(sofar[x as int].1),
                            |x: u32| range_of(*config, sofar[x as int].1),
                        ));
                        assert(world.discovered@.dom() =~= world.perception_ranges@.dom());
                    }
                },
                None => {},
            }
            col = col + 1;
        }
        proof {
            assert(line@.take(line@.len() as int) =~= line@);
        }
        row = row + 1;
    }
    proof {
        let w = world;
        if sizes_fit(w.height, w.width) && range_fits(config.player_perception_range) && range_fits(config.enemy_perception_range) {
            assert(w.positions@.dom() =~= w.kinds@.dom());
            assert forall|id: u32| #[trigger] w.kinds@.contains_key(id) && is_mover(w.kinds@[id]) implies w.perception_ranges@.contains_key(id)
                && w.discovered@.contains_key(id) by {
            }
        }
    }
    world
}

/// The rows of a layout as chars, one per line.
pub open spec fn char_rows(text: Seq<char>) -> Seq<Seq<char>> {
    spec_lines(text)
}

/// The lines of a layout as rows of chars.
pub(crate) fn layout_to_chars(layout: &str) -> (grid: Vec<Vec<char>>)
    ensures
        grid@.len() == char_rows(layout@).len(),
        forall|i: int| 0 <= i < grid@.len() ==> #[trigger] grid@[i]@ == char_rows(layout@)[i],
{
    let text = str_chars(layout);
    split_lines(&text)
}

/// The view of a grid of chars.
pub open spec fn rows_view(g: Seq<Vec<char>>) -> Seq<Seq<char>> {
    g.map_values(|v: Vec<char>| v@)
}

pub open spec fn has_char_at(g: Seq<Seq<char>>, ch: char, p: (int, int)) -> bool {
    0 <= p.0 < g.len() && 0 <= p.1 < g[p.0].len() && g[p.0][p.1] == ch
}

pub open spec fn lex_before(a: (int, int), b: (int, int)) -> bool {
    a.0 < b.0 || (a.0 == b.0 && a.1 < b.1)
}

/// `p` is the first cell holding `ch`, in row-major order.
pub open spec fn is_first_char(g: Seq<Seq<char>>, ch: char, p: (int, int)) -> bool {
    &&& has_char_at(g, ch, p)
    &&& forall|q: (int, int)| #[trigger] has_char_at(g, ch, q) && lex_before(q, p) ==> false
}

pub open spec fn contains_char(g: Seq<Seq<char>>, ch: char) -> bool {
    exists|p: (int, int)| #[trigger] has_char_at(g, ch, p)
}

/// The first cell holding `ch`, in row-major order.
pub open spec fn first_char(g: Seq<Seq<char>>, ch: char) -> (int, int) {
    choose|p: (int, int)| is_first_char(g, ch, p)
}

/// The first cell of a grid that holds `target`, in row-major order.
fn find_char(grid: &Vec<Vec<char>>, target: char) -> (found: Option<(usize, usize)>)
    ensures
        match found {
            Some(p) => is_first_char(rows_view(grid@), target, (p.0 as int, p.1 as int)) && first_char(
                rows_view(grid@),
                target,
            ) == (p.0 as int, p.1 as int),
            None => !contains_char(rows_view(grid@), target),
        },
{
    let ghost g = rows_view(grid@);
    let mut row: usize = 0;
    while row < grid.len()
        invariant
            row <= grid.len(),
            g == rows_view(grid@),
            forall|q: (int, int)| #[trigger] has_char_at(g, target, q) ==> q.0 >= row,
        decreases grid.len() - row,
    {
        let line = &grid[row];
        let mut col: usize = 0;
        while col < line.len()
            invariant
                col <= line.len(),
                row < grid.len(),
                *line == grid@[row as int],
                g == rows_view(grid@),
                forall|q: (int, int)| #[trigger] has_char_at(g, target, q) ==> q.0 > row || (q.0 == row && q.1 >= col),
            decreases line.len() - col,
        {
            if line[col] == target {
                proof {
                    let p = (row as int, col as int);
                    assert(has_char_at(g, target, p));
                    assert(is_first_char(g, target, p));
                    let c = choose|c: (int, int)| is_first_char(g, target, c);
                    assert(!lex_before(c, p));
                    assert(!lex_before(p, c));
                }
                return Some((row, col));
            }
            col = col + 1;
        }
        row = row + 1;
    }
    None
}

/// Two cells side by side (not diagonal).
pub open spec fn adjacent(a: (int, int), b: (int, int)) -> bool {
    (a.0 == b.0 && (a.1 - b.1 == 1 || b.1 - a.1 == 1)) || (a.1 == b.1 && (a.0 - b.0 == 1 || b.0 - a.0 == 1))
}

/// A cell of the `width`-wide grid that is not a wall.
pub open spec fn open_cell(g: Seq<Seq<char>>, width: int, p: (int, int)) -> bool {
    0 <= p.0 < g.len() && 0 <= p.1 < width && g[p.0][p.1] != '#'
}

/// A walk from `a` to `b` by side-by-side steps onto open cells.
pub open spec fn is_walk(g: Seq<Seq<char>>, width: int, path: Seq<(int, int)>, a: (int, int), b: (int, int)) -> bool {
    &&& path.len() >= 1
    &&& path[0] == a
    &&& path.last() == b
    &&& forall|i: int| 1 <= i < path.len() ==> adjacent(path[i - 1], #[trigger] path[i]) && open_cell(g, width, path[i])
}

pub open spec fn reachable(g: Seq<Seq<char>>, width: int, a: (int, int), b: (int, int)) -> bool {
    exists|path: Seq<(int, int)>| #[trigger] is_walk(g, width, path, a, b)
}

/// A layout the reachability check can read: some lines, no row shorter
/// than the first, 32-bit sizes, and a player and a goal.
pub open spec fn searchable(text: Seq<char>) -> bool {
    let g = char_rows(text);
    &&& g.len() >= 1
    &&& g.len() <= i32::MAX
    &&& g[0].len() <= i32::MAX
    &&& forall|i: int| 0 <= i < g.len() ==> (#[trigger] g[i]).len() >= g[0].len() && g[i].len() <= i32::MAX
    &&& contains_char(g, 'P')
    &&& contains_char(g, 'G')
}

/// A set of visited cells that holds every open neighbour of its members
/// holds the end of every walk that starts inside it.
proof fn lemma_closed_holds_walk(
    g: Seq<Seq<char>>,
    width: int,
    visited: Set<(int, int)>,
    path: Seq<(int, int)>,
    a: (int, int),
    b: (int, int),
)
    requires
        is_walk(g, width, path, a, b),
        visited.contains(a),
        forall|p: (int, int), q: (int, int)|
            #![trigger visited.contains(p), visited.contains(q)]
            visited.contains(p) && adjacent(p, q) && open_cell(g, width, q) ==> visited.contains(q),
    ensures
        visited.contains(b),
    decreases path.len(),
{
    if path.len() > 1 {
        let prefix = path.drop_last();
        assert(is_walk(g, width, prefix, a, prefix.last())) by {
            assert forall|i: int| 1 <= i < prefix.len() implies adjacent(prefix[i - 1], #[trigger] prefix[i]) && open_cell(g, width, prefix[i]) by {
                assert(prefix[i] == path[i]);
                assert(prefix[i - 1] == path[i - 1]);
            }
        }
        lemma_closed_holds_walk(g, width, visited, prefix, a, prefix.last());
        assert(adjacent(path[path.len() - 2], path[path.len() - 1]));
        assert(visited.contains(path[path.len() - 2]));
    }
}

/// The first goal of a layout can be reached from its first player by
/// side-by-side steps onto cells that are not walls, inside the width of
/// the first row.
pub open spec fn goal_reachable(text: Seq<char>) -> bool {
    reachable(
        char_rows(text),
        char_rows(text)[0].len() as int,
        first_char(char_rows(text), 'P'),
        first_char(char_rows(text), 'G'),
    )
}

/// Whether the reachability check can read a layout: exactly `searchable`.
pub fn is_searchable(layout: &str) -> (b: bool)
    ensures
        b == searchable(layout@),
{
    let grid = layout_to_chars(layout);
    let ghost g = char_rows(layout@);
    assert(rows_view(grid@) =~= g);
    if grid.len() == 0 || grid.len() > 0x7fff_ffff {
        return false;
    }
    let width = grid[0].len();
    if width > 0x7fff_ffff {
        return false;
    }
    let mut i: usize = 0;
    while i < grid.len()
        invariant
            i <= grid@.len(),
            rows_view(grid@) == g,
            g == char_rows(layout@),
            width == g[0].len(),
            forall|k: int| 0 <= k < i ==> (#[trigger] g[k]).len() >= g[0].len() && g[k].len() <= i32::MAX,
        decreases grid@.len() - i,
    {
        assert(grid@[i as int]@ == g[i as int]);
        if grid[i].len() < width || grid[i].len() > 0x7fff_ffff {
            return false;
        }
        i = i + 1;
    }
    let p = find_char(&grid, 'P');
    let q = find_char(&grid, 'G');
    p.is_some() && q.is_some()
}

/// Whether the reachability check can read a layout once its lines are
/// joined again by line feeds (as a mutation joins them).
pub fn is_searchable_rejoined(layout: &str) -> (b: bool)
    ensures
        b == searchable(joined(char_rows(layout@))),
{
    let grid = layout_to_chars(layout);
    assert(rows_view(grid@) =~= char_rows(layout@));
    let text = join_rows(&grid);
    let rejoined = string_of(&text);
    is_searchable(rejoined.as_str())
}

/// Whether the goal can be reached from the player by side-by-side steps
/// that avoid walls and stay in the grid (the width of the first row).
pub fn is_layout_reachable(layout: &str) -> (b: bool)
    requires
        searchable(layout@),
    ensures
        b == goal_reachable(layout@),
{
    let grid = layout_to_chars(layout);
    let ghost g = char_rows(layout@);
    assert(rows_view(grid@) =~= g);
    let height = grid.len();
    let width = grid[0].len();
    let start = find_char(&grid, 'P').unwrap();
    let target = find_char(&grid, 'G').unwrap();
    let ghost s = (start.0 as int, start.1 as int);
    let ghost t = (target.0 as int, target.1 as int);
    let ghost wd = width as int;
    let mut visited: Vec<Vec<bool>> = Vec::new();
    let mut r: usize = 0;
    while r < height
        invariant
            r <= height,
            visited@.len() == r,
            forall|i: int| 0 <= i < r ==> (#[trigger] visited@[i])@.len() == width && forall|j: int| 0 <= j < width ==> !(#[trigger] visited@[i]@[j]),
        decreases height - r,
    {
        let mut line: Vec<bool> = Vec::new();
        let mut c: usize = 0;
        while c < width
            invariant
                c <= width,
                line@.len() == c,
                forall|j: int| 0 <= j < c ==> !(#[trigger] line@[j]),
            decreases width - c,
        {
            line.push(false);
            c = c + 1;
        }
        visited.push(line);
        r = r + 1;
    }
    proof {
        assert(has_char_at(g, 'P', s));
        assert(has_char_at(g, 'G', t));
        assert(s == first_char(g, 'P'));
        assert(t == first_char(g, 'G'));
        assert(s != t);
        assert(start.1 < i32::MAX);
        assert(marked(visited@) =~= Set::empty());
    }
    let mut queue: Vec<(usize, usize)> = Vec::new();
    let ghost v0 = visited@;
    if start.1 < width {
        mark(&mut visited, start.0, start.1);
    }
    queue.push(start);
    proof {
        if start.1 < width {
            lemma_all_false_update(visited@, v0, start.0 as int);
            lemma_row_false_update(v0[start.0 as int]@, start.1 as int);
        }
        let walk = seq![s];
        assert(is_walk(g, wd, walk, s, s));
        assert forall|i: int, j: int| 0 <= i < height && 0 <= j < width && #[trigger] visited@[i]@[j] implies exists|k: int| 0 <= k < queue@.len() && queue@[k] == (i as usize, j as usize) by {
            assert(i == start.0 && j == start.1) by {
                if i != start.0 {
                    assert(visited@[i] == v0[i]);
                } else if j != start.1 {
                    assert(visited@[i]@[j] == v0[i]@[j]);
                }
            }
            assert(queue@[0] == (i as usize, j as usize));
        }
    }
    let mut head: usize = 0;
    while head < queue.len()
        invariant
            bfs_inv(g, wd, height as int, visited@, queue@, s),
            head <= queue@.len(),
            g == char_rows(layout@),
            g == rows_view(grid@),
            searchable(layout@),
            wd == width,
            height == grid@.len(),
            width == g[0].len(),
            t == (target.0 as int, target.1 as int),
            t == first_char(g, 'G'),
            s == first_char(g, 'P'),
            queue@.len() >= 1,
            queue@[0] == start,
            s == (start.0 as int, start.1 as int),
            start.0 < height,
            start.1 < i32::MAX,
            s != t,
            forall|k: int| 0 <= k < head ==> (queue@[k].0 as int, queue@[k].1 as int) != t,
            forall|k: int, q: (int, int)|
                #![trigger queue@[k], marked(visited@).contains(q)]
                0 <= k < head && adjacent((queue@[k].0 as int, queue@[k].1 as int), q) && open_cell(g, wd, q)
                    ==> marked(visited@).contains(q),
        decreases all_false(visited@) + queue@.len() - head,
    {
        let cur = queue[head];
        let ghost measure = all_false(visited@) + queue@.len() - head;
        assert(reachable(g, wd, s, (queue@[head as int].0 as int, queue@[head as int].1 as int)));
        head = head + 1;
        if cur.0 == target.0 && cur.1 == target.1 {
            return true;
        }
        assert(cur.0 < height && cur.1 < i32::MAX) by {
            if head - 1 > 0 {
            } else {
                assert(cur == start);
            }
        }
        let ghost q0 = queue@;
        let ghost m0 = marked(visited@);
        try_visit(&grid, width, &mut visited, &mut queue, cur, -1, 0, Ghost(g), Ghost(s));
        try_visit(&grid, width, &mut visited, &mut queue, cur, 1, 0, Ghost(g), Ghost(s));
        try_visit(&grid, width, &mut visited, &mut queue, cur, 0, -1, Ghost(g), Ghost(s));
        try_visit(&grid, width, &mut visited, &mut queue, cur, 0, 1, Ghost(g), Ghost(s));
        proof {
            let c = (cur.0 as int, cur.1 as int);
            assert forall|k: int, q: (int, int)|
                #![trigger queue@[k], marked(visited@).contains(q)]
                0 <= k < head && adjacent((queue@[k].0 as int, queue@[k].1 as int), q) && open_cell(g, wd, q)
                    implies marked(visited@).contains(q) by {
                assert(queue@[k] == q0[k]);
                if k < head - 1 {
                    assert(m0.contains(q));
                } else {
                    assert(q == (c.0 - 1, c.1) || q == (c.0 + 1, c.1) || q == (c.0, c.1 - 1) || q == (c.0, c.1 + 1));
                }
            }
            assert forall|k: int| 0 <= k < head implies (queue@[k].0 as int, queue@[k].1 as int) != t by {
                assert(queue@[k] == q0[k]);
            }
        }
    }
    proof {
        let vs = marked(visited@).insert(s);
        assert forall|p: (int, int), q: (int, int)|
            #![trigger vs.contains(p), vs.contains(q)]
            vs.contains(p) && adjacent(p, q) && open_cell(g, wd, q) implies vs.contains(q) by {
            if p == s {
                assert(queue@[0] == (p.0 as usize, p.1 as usize));
                assert(marked(visited@).contains(q));
            } else {
                let k = choose|k: int| 0 <= k < queue@.len() && queue@[k] == (p.0 as usize, p.1 as usize);
                assert(queue@[k] == (p.0 as usize, p.1 as usize));
                assert(marked(visited@).contains(q));
            }
        }
        assert(vs.contains(s));
        if reachable(g, wd, s, t) {
            let path = choose|path: Seq<(int, int)>| #[trigger] is_walk(g, wd, path, s, t);
            lemma_closed_holds_walk(g, wd, vs, path, s, t);
            assert(marked(visited@).contains(t));
            let k = choose|k: int| 0 <= k < queue@.len() && queue@[k] == (t.0 as usize, t.1 as usize);
            assert(false);
        }
    }
    false
}

/// Cells marked in a grid of flags.
pub open spec fn marked(v: Seq<Vec<bool>>) -> Set<(int, int)> {
    Set::new(|p: (int, int)| 0 <= p.0 < v.len() && 0 <= p.1 < v[p.0]@.len() && v[p.0]@[p.1])
}

/// The search state: a grid of flags the size of the layout; every queued
/// cell is in the grid, marked and reachable from the start; every marked
/// cell is queued.
pub open spec fn bfs_inv(
    g: Seq<Seq<char>>,
    width: int,
    height: int,
    visited: Seq<Vec<bool>>,
    queue: Seq<(usize, usize)>,
    s: (int, int),
) -> bool {
    &&& visited.len() == height
    &&& forall|i: int| 0 <= i < height ==> (#[trigger] visited[i])@.len() == width
    &&& forall|k: int|
        0 <= k < queue.len() ==> {
            &&& reachable(g, width, s, (#[trigger] queue[k].0 as int, queue[k].1 as int))
            &&& k > 0 ==> queue[k].0 < height && queue[k].1 < width
            &&& (queue[k].0 < height && queue[k].1 < width) ==> visited[queue[k].0 as int]@[queue[k].1 as int]
        }
    &&& forall|i: int, j: int|
        0 <= i < height && 0 <= j < width && #[trigger] visited[i]@[j] ==> exists|k: int|
            0 <= k < queue.len() && queue[k] == (i as usize, j as usize)
}

pub open spec fn row_false(row: Seq<bool>) -> nat
    decreases row.len(),
{
    if row.len() == 0 {
        0
    } else {
        row_false(row.drop_last()) + if !row.last() {
            1nat
        } else {
            0nat
        }
    }
}

pub open spec fn all_false(rows: Seq<Vec<bool>>) -> nat
    decreases rows.len(),
{
    if rows.len() == 0 {
        0
    } else {
        all_false(rows.drop_last()) + row_false(rows.last()@)
    }
}

proof fn lemma_row_false_update(row: Seq<bool>, j: int)
    requires
        0 <= j < row.len(),
        !row[j],
    ensures
        row_false(row.update(j, true)) + 1 == row_false(row),
    decreases row.len(),
{
    let u = row.update(j, true);
    if j == row.len() - 1 {
        assert(u.drop_last() =~= row.drop_last());
    } else {
        assert(u.drop_last() =~= row.drop_last().update(j, true));
        lemma_row_false_update(row.drop_last(), j);
    }
}

proof fn lemma_all_false_update(rows: Seq<Vec<bool>>, old_rows: Seq<Vec<bool>>, i: int)
    requires
        rows.len() == old_rows.len(),
        0 <= i < rows.len(),
        forall|k: int| 0 <= k < rows.len() && k != i ==> #[trigger] rows[k] == old_rows[k],
    ensures
        all_false(rows) + row_false(old_rows[i]@) == all_false(old_rows) + row_false(rows[i]@),
    decreases rows.len(),
{
    if i == rows.len() - 1 {
        assert(rows.drop_last() =~= old_rows.drop_last());
    } else {
        lemma_all_false_update(rows.drop_last(), old_rows.drop_last(), i);
    }
}

proof fn lemma_walk_extend(g: Seq<Seq<char>>, width: int, a: (int, int), b: (int, int), c: (int, int))
    requires
        reachable(g, width, a, b),
        adjacent(b, c),
        open_cell(g, width, c),
    ensures
        reachable(g, width, a, c),
{
    let path = choose|path: Seq<(int, int)>| #[trigger] is_walk(g, width, path, a, b);
    let p2 = path.push(c);
    assert(is_walk(g, width, p2, a, c)) by {
        assert forall|i: int| 1 <= i < p2.len() implies adjacent(p2[i - 1], #[trigger] p2[i]) && open_cell(g, width, p2[i]) by {
            if i < path.len() {
                assert(p2[i] == path[i]);
                assert(p2[i - 1] == path[i - 1]);
            }
        }
    }
}

/// Visits the neighbour of `cur` at `(dr, dc)` if it is in the grid, open
/// and not yet visited.
fn try_visit(
    grid: &Vec<Vec<char>>,
    width: usize,
    visited: &mut Vec<Vec<bool>>,
    queue: &mut Vec<(usize, usize)>,
    cur: (usize, usize),
    dr: i32,
    dc: i32,
    Ghost(g): Ghost<Seq<Seq<char>>>,
    Ghost(s): Ghost<(int, int)>,
)
    requires
        g == rows_view(grid@),
        g.len() <= i32::MAX,
        width <= i32::MAX,
        forall|i: int| 0 <= i < g.len() ==> (#[trigger] g[i]).len() >= width,
        bfs_inv(g, width as int, g.len() as int, old(visited)@, old(queue)@, s),
        cur.0 < g.len(),
        cur.1 < i32::MAX,
        reachable(g, width as int, s, (cur.0 as int, cur.1 as int)),
        (dr == 0 && (dc == 1 || dc == -1)) || (dc == 0 && (dr == 1 || dr == -1)),
    ensures
        bfs_inv(g, width as int, g.len() as int, final(visited)@, final(queue)@, s),
        final(queue)@.len() >= old(queue)@.len(),
        forall|k: int| 0 <= k < old(queue)@.len() ==> #[trigger] final(queue)@[k] == old(queue)@[k],
        forall|q: (int, int)| #[trigger] marked(old(visited)@).contains(q) ==> marked(final(visited)@).contains(q),
        open_cell(g, width as int, (cur.0 + dr, cur.1 + dc)) ==> marked(final(visited)@).contains((cur.0 + dr, cur.1 + dc)),
        all_false(final(visited)@) + final(queue)@.len() == all_false(old(visited)@) + old(queue)@.len(),
{
    let height = grid.len();
    let nr = cur.0 as i32 + dr;
    let nc = cur.1 as i32 + dc;
    if nr < 0 || nr >= height as i32 || nc < 0 || nc >= width as i32 {
        return;
    }
    let n = (nr as usize, nc as usize);
    let ghost ni = (n.0 as int, n.1 as int);
    assert(grid@[n.0 as int]@ == g[n.0 as int]);
    if grid[n.0][n.1] != '#' && !visited[n.0][n.1] {
        let ghost v0 = visited@;
        let ghost qu0 = queue@;
        mark(visited, n.0, n.1);
        queue.push(n);
        proof {
            lemma_all_false_update(visited@, v0, n.0 as int);
            lemma_row_false_update(v0[n.0 as int]@, n.1 as int);
            assert(open_cell(g, width as int, ni));
            assert(adjacent((cur.0 as int, cur.1 as int), ni));
            lemma_walk_extend(g, width as int, s, (cur.0 as int, cur.1 as int), ni);
            assert forall|k: int| 0 <= k < queue@.len() implies {
                &&& reachable(g, width as int, s, (#[trigger] queue@[k].0 as int, queue@[k].1 as int))
                &&& k > 0 ==> queue@[k].0 < g.len() && queue@[k].1 < width
                &&& (queue@[k].0 < g.len() && queue@[k].1 < width) ==> visited@[queue@[k].0 as int]@[queue@[k].1 as int]
            } by {
                if k < qu0.len() {
                    assert(queue@[k] == qu0[k]);
                    if queue@[k].0 != n.0 {
                        if queue@[k].0 < g.len() {
                            assert(visited@[queue@[k].0 as int] == v0[queue@[k].0 as int]);
                        }
                    }
                }
            }
            assert forall|i: int, j: int| 0 <= i < g.len() && 0 <= j < width && #[trigger] visited@[i]@[j] implies exists|k: int|
                0 <= k < queue@.len() && queue@[k] == (i as usize, j as usize) by {
                if i == n.0 && j == n.1 {
                    assert(queue@[qu0.len() as int] == (i as usize, j as usize));
                } else {
                    if i != n.0 {
                        assert(visited@[i] == v0[i]);
                    } else {
                        assert(visited@[i]@[j] == v0[i]@[j]);
                    }
                    let k = choose|k: int| 0 <= k < qu0.len() && qu0[k] == (i as usize, j as usize);
                    assert(queue@[k] == qu0[k]);
                }
            }
            assert forall|q: (int, int)| #[trigger] marked(v0).contains(q) implies marked(visited@).contains(q) by {
                if q.0 != n.0 {
                    assert(visited@[q.0] == v0[q.0]);
                }
            }
            assert(marked(visited@).contains(ni));
        }
    } else {
        proof {
            if open_cell(g, width as int, ni) {
                assert(visited@[n.0 as int]@[n.1 as int]);
                assert(marked(visited@).contains(ni));
            }
        }
    }
}

/// Marks one cell of a grid of flags.
fn mark(visited: &mut Vec<Vec<bool>>, r: usize, c: usize)
    requires
        r < old(visited)@.len(),
        c < old(visited)@[r as int]@.len(),
    ensures
        final(visited)@.len() == old(visited)@.len(),
        forall|i: int| 0 <= i < final(visited)@.len() && i != r ==> #[trigger] final(visited)@[i] == old(visited)@[i],
        final(visited)@[r as int]@ == old(visited)@[r as int]@.update(c as int, true),
{
    visited[r].set(c, true);
}

/// Lines joined by line feeds (no line feed after the last).
pub open spec fn joined(rows: Seq<Seq<char>>) -> Seq<char>
    decreases rows.len(),
{
    if rows.len() == 0 {
        seq![]
    } else if rows.len() == 1 {
        rows[0]
    } else {
        joined(rows.drop_last()) + seq!['\n'] + rows.last()
    }
}

/// No row ends with a carriage return.
pub open spec fn rows_without_cr_end(g: Seq<Seq<char>>) -> bool {
    forall|r: int| 0 <= r < g.len() && (#[trigger] g[r]).len() > 0 ==> g[r].last() != '\r'
}

proof fn lemma_joined_front(rows: Seq<Seq<char>>)
    requires
        rows.len() >= 2,
    ensures
        joined(rows) == rows[0] + seq!['\n'] + joined(rows.drop_first()),
    decreases rows.len(),
{
    if rows.len() == 2 {
        assert(rows.drop_last() =~= seq![rows[0]]);
        assert(rows.drop_first() =~= seq![rows[1]]);
        assert(joined(rows.drop_last()) == rows[0]);
        assert(joined(rows.drop_first()) == rows[1]);
        assert(joined(rows) =~= rows[0] + seq!['\n'] + joined(rows.drop_first()));
    } else {
        lemma_joined_front(rows.drop_last());
        assert(rows.drop_last().drop_first() =~= rows.drop_first().drop_last());
        assert(rows.drop_first().last() == rows.last());
        assert(joined(rows) =~= rows[0] + seq!['\n'] + joined(rows.drop_first()));
    }
}

/// What `str::lines` gives back of rows joined by line feeds: each row
/// but the last loses a carriage return it ended with (it now stands
/// before a line feed).
pub open spec fn rejoined_rows(rows: Seq<Seq<char>>) -> Seq<Seq<char>> {
    Seq::new(rows.len(), |r: int| if r + 1 < rows.len() { strip_cr(rows[r]) } else { rows[r] })
}

/// Rows joined by line feeds read back, line by line, as `rejoined_rows`,
/// when no row holds a line feed and the last row is not empty.
pub proof fn lemma_lines_of_joined_rows(rows: Seq<Seq<char>>)
    requires
        rows.len() >= 1,
        rows_without_newline(rows),
        rows.last().len() > 0,
    ensures
        spec_lines(joined(rows)) == rejoined_rows(rows),
    decreases rows.len(),
{
    if rows.len() == 1 {
        assert(has_no_newline(rows[0]));
        lemma_lines_no_newline(rows[0]);
        assert(seq![rows[0]] =~= rejoined_rows(rows));
    } else {
        lemma_joined_front(rows);
        let rest = seq!['\n'] + joined(rows.drop_first());
        assert(joined(rows) =~= rows[0] + rest);
        assert(has_no_newline(rows[0]));
        lemma_lines_at_newline(rows[0], rest);
        assert(rest.drop_first() =~= joined(rows.drop_first()));
        assert(rows_without_newline(rows.drop_first())) by {
            assert forall|r: int| 0 <= r < rows.drop_first().len() implies has_no_newline(#[trigger] rows.drop_first()[r]) by {
                assert(rows.drop_first()[r] == rows[r + 1]);
            }
        }
        lemma_lines_of_joined_rows(rows.drop_first());
        assert(seq![strip_cr(rows[0])] + rejoined_rows(rows.drop_first()) =~= rejoined_rows(rows));
    }
}

/// Rows joined by line feeds read back, line by line, as the same rows,
/// when no row holds a line feed or ends with a carriage return and the
/// last row is not empty.
pub proof fn lemma_lines_of_joined(rows: Seq<Seq<char>>)
    requires
        rows.len() >= 1,
        rows_without_newline(rows),
        rows_without_cr_end(rows),
        rows.last().len() > 0,
    ensures
        spec_lines(joined(rows)) == rows,
{
    lemma_lines_of_joined_rows(rows);
    assert forall|r: int| 0 <= r < rows.len() implies #[trigger] rejoined_rows(rows)[r] == rows[r] by {
        if rows[r].len() > 0 {
            assert(rows[r].last() != '\r');
        }
    }
    assert(rejoined_rows(rows) =~= rows);
}

/// Joins rows of chars with line feeds.
pub(crate) fn join_rows(grid: &Vec<Vec<char>>) -> (text: Vec<char>)
    ensures
        text@ == joined(rows_view(grid@)),
{
    let mut text: Vec<char> = Vec::new();
    let mut r: usize = 0;
    while r < grid.len()
        invariant
            r <= grid.len(),
            text@ == joined(rows_view(grid@).take(r as int)),
        decreases grid.len() - r,
    {
        let ghost before = text@;
        let ghost t = rows_view(grid@).take(r + 1);
        assert(t.drop_last() =~= rows_view(grid@).take(r as int));
        if r > 0 {
            text.push('\n');
        }
        let line = &grid[r];
        let mut c: usize = 0;
        let ghost mid = text@;
        while c < line.len()
            invariant
                c <= line.len(),
                text@ == mid + line@.take(c as int),
            decreases line.len() - c,
        {
            text.push(line[c]);
            assert(line@.take(c + 1) =~= line@.take(c as int).push(line@[c as int]));
            assert(text@ =~= mid + line@.take(c + 1));
            c = c + 1;
        }
        assert(line@.take(c as int) =~= line@);
        proof {
            if r == 0 {
                assert(before =~= Seq::<char>::empty());
                assert(text@ =~= t[0]);
            } else {
                assert(text@ =~= before + seq!['\n'] + t.last());
            }
        }
        r = r + 1;
    }
    assert(rows_view(grid@).take(grid@.len() as int) =~= rows_view(grid@));
    text
}

pub open spec fn is_border(width: usize, height: usize, p: (usize, usize)) -> bool {
    p.0 == 0 || p.0 == height - 1 || p.1 == 0 || p.1 == width - 1
}

/// A cell inside the border of a `height` by `width` grid.
pub open spec fn is_interior(width: usize, height: usize, p: (usize, usize)) -> bool {
    1 <= p.0 && p.0 + 2 <= height && 1 <= p.1 && p.1 + 2 <= width
}

/// The interior cells of a grid, in row-major order.
pub fn interior_cells(width: usize, height: usize) -> (cells: Vec<(usize, usize)>)
    ensures
        cells@.no_duplicates(),
        forall|p: (usize, usize)| cells@.contains(p) <==> is_interior(width, height, p),
        forall|i: int, j: int| 0 <= i < j < cells@.len() ==> lex_before((cells@[i].0 as int, cells@[i].1 as int), (cells@[j].0 as int, cells@[j].1 as int)),
{
    let mut cells: Vec<(usize, usize)> = Vec::new();
    let mut row: usize = 0;
    while row < height
        invariant
            row <= height,
            forall|p: (usize, usize)| cells@.contains(p) <==> is_interior(width, height, p) && p.0 < row,
            forall|i: int, j: int| 0 <= i < j < cells@.len() ==> lex_before((cells@[i].0 as int, cells@[i].1 as int), (cells@[j].0 as int, cells@[j].1 as int)),
            cells@.len() > 0 ==> cells@.last().0 < row,
        decreases height - row,
    {
        let mut col: usize = 0;
        while col < width
            invariant
                col <= width,
                row < height,
                forall|p: (usize, usize)| cells@.contains(p) <==> is_interior(width, height, p) && (p.0 < row || (p.0 == row && p.1 < col)),
                forall|i: int, j: int| 0 <= i < j < cells@.len() ==> lex_before((cells@[i].0 as int, cells@[i].1 as int), (cells@[j].0 as int, cells@[j].1 as int)),
                cells@.len() > 0 ==> lex_before((cells@.last().0 as int, cells@.last().1 as int), (row as int, col as int)),
            decreases width - col,
        {
            if !(row == 0 || row == height - 1 || col == 0 || col == width - 1) {
                let ghost before = cells@;
                cells.push((row, col));
                assert forall|p: (usize, usize)| cells@.contains(p) <==> before.contains(p) || p == (row, col) by {
                    if cells@.contains(p) && p != (row, col) {
                        let k = choose|k: int| 0 <= k < cells@.len() && cells@[k] == p;
                        assert(before[k] == p);
                    }
                    if before.contains(p) {
                        let k = choose|k: int| 0 <= k < before.len() && before[k] == p;
                        assert(cells@[k] == p);
                    }
                    if p == (row, col) {
                        assert(cells@[cells@.len() - 1] == p);
                    }
                }
                assert forall|i: int, j: int| 0 <= i < j < cells@.len() implies lex_before((cells@[i].0 as int, cells@[i].1 as int), (cells@[j].0 as int, cells@[j].1 as int)) by {
                    if j == cells@.len() - 1 {
                        if i < before.len() - 1 {
                            assert(lex_before((before[i].0 as int, before[i].1 as int), (before.last().0 as int, before.last().1 as int)));
                        }
                    } else {
                        assert(cells@[i] == before[i] && cells@[j] == before[j]);
                    }
                }
            }
            col = col + 1;
        }
        row = row + 1;
    }
    assert(cells@.no_duplicates()) by {
        assert forall|i: int, j: int| 0 <= i < cells@.len() && 0 <= j < cells@.len() && i != j implies cells@[i] != cells@[j] by {
            if i < j {
                assert(lex_before((cells@[i].0 as int, cells@[i].1 as int), (cells@[j].0 as int, cells@[j].1 as int)));
            } else {
                assert(lex_before((cells@[j].0 as int, cells@[j].1 as int), (cells@[i].0 as int, cells@[i].1 as int)));
            }
        }
    }
    cells
}

/// The character a chosen cell gets: the last chosen is the player, the
/// one before it the goal, then the enemies, and the first `num_traps` the
/// traps.
pub open spec fn placed_char(n: int, num_traps: int, k: int) -> char {
    if k == n - 1 {
        'P'
    } else if k == n - 2 {
        'G'
    } else if k >= num_traps {
        'E'
    } else {
        'T'
    }
}

/// The character of a cell before the entities are placed: walls on the
/// border and on the wall cells, floor elsewhere.
pub open spec fn base_char(width: usize, height: usize, walls: Seq<(usize, usize)>, p: (usize, usize)) -> char {
    if is_border(width, height, p) || walls.contains(p) {
        '#'
    } else {
        '.'
    }
}

/// The character of a generated layout at a cell.
pub open spec fn generated_char(
    width: usize,
    height: usize,
    walls: Seq<(usize, usize)>,
    chosen: Seq<(usize, usize)>,
    num_traps: int,
    p: (usize, usize),
) -> char {
    if chosen.contains(p) {
        placed_char(chosen.len() as int, num_traps, choose|k: int| 0 <= k < chosen.len() && chosen[k] == p)
    } else {
        base_char(width, height, walls, p)
    }
}

pub open spec fn generated_rows(
    width: usize,
    height: usize,
    walls: Seq<(usize, usize)>,
    chosen: Seq<(usize, usize)>,
    num_traps: int,
) -> Seq<Seq<char>> {
    Seq::new(
        height as nat,
        |r: int| Seq::new(width as nat, |c: int| generated_char(width, height, walls, chosen, num_traps, (r as usize, c as usize))),
    )
}

/// The text of a generated layout.
pub open spec fn generated_text(
    width: usize,
    height: usize,
    walls: Seq<(usize, usize)>,
    chosen: Seq<(usize, usize)>,
    num_traps: int,
) -> Seq<char> {
    joined(generated_rows(width, height, walls, chosen, num_traps))
}

/// The layout with border walls, the given interior walls, and the
/// entities on the chosen cells (see `placed_char`), rows joined by line
/// feeds.
pub fn compose_layout(
    width: usize,
    height: usize,
    walls: &Vec<(usize, usize)>,
    chosen: &Vec<(usize, usize)>,
    num_enemies: usize,
    num_traps: usize,
) -> (layout: String)
    requires
        chosen@.len() == 2 + num_enemies + num_traps,
        chosen@.no_duplicates(),
        forall|k: int| 0 <= k < chosen@.len() ==> is_interior(width, height, #[trigger] chosen@[k]),
        forall|k: int| 0 <= k < walls@.len() ==> is_interior(width, height, #[trigger] walls@[k]),
    ensures
        layout@ == generated_text(width, height, walls@, chosen@, num_traps as int),
{
    let mut grid: Vec<Vec<char>> = Vec::new();
    let mut row: usize = 0;
    while row < height
        invariant
            row <= height,
            grid@.len() == row,
            forall|r: int| 0 <= r < row ==> (#[trigger] grid@[r])@.len() == width && forall|c: int|
                0 <= c < width ==> (#[trigger] grid@[r]@[c]) == (if is_border(width, height, (r as usize, c as usize)) { '#' } else { '.' }),
        decreases height - row,
    {
        let mut line: Vec<char> = Vec::new();
        let mut col: usize = 0;
        while col < width
            invariant
                col <= width,
                row < height,
                line@.len() == col,
                forall|c: int| 0 <= c < col ==> (#[trigger] line@[c]) == (if is_border(width, height, (row, c as usize)) { '#' } else { '.' }),
            decreases width - col,
        {
            if row == 0 || row == height - 1 || col == 0 || col == width - 1 {
                line.push('#');
            } else {
                line.push('.');
            }
            col = col + 1;
        }
        grid.push(line);
        row = row + 1;
    }
    let mut i: usize = 0;
    while i < walls.len()
        invariant
            i <= walls.len(),
            grid@.len() == height,
            forall|k: int| 0 <= k < walls@.len() ==> is_interior(width, height, #[trigger] walls@[k]),
            forall|r: int| 0 <= r < height ==> (#[trigger] grid@[r])@.len() == width && forall|c: int|
                0 <= c < width ==> (#[trigger] grid@[r]@[c]) == base_char(width, height, walls@.take(i as int), (r as usize, c as usize)),
        decreases walls.len() - i,
    {
        let w = walls[i];
        assert(is_interior(width, height, walls@[i as int]));
        let ghost g0 = grid@;
        grid[w.0].set(w.1, '#');
        proof {
            let t0 = walls@.take(i as int);
            let t1 = walls@.take(i + 1);
            assert(t1 =~= t0.push(w));
            assert forall|x: (usize, usize)| #[trigger] t1.contains(x) <==> (t0.contains(x) || x == w) by {
                if t1.contains(x) {
                    let j = choose|j: int| 0 <= j < t1.len() && t1[j] == x;
                    if j < i {
                        assert(t0[j] == x);
                    }
                }
                if t0.contains(x) {
                    let j = choose|j: int| 0 <= j < t0.len() && t0[j] == x;
                    assert(t1[j] == x);
                }
                if x == w {
                    assert(t1[i as int] == x);
                }
            }
            assert forall|r: int| 0 <= r < height implies (#[trigger] grid@[r])@.len() == width && forall|c: int|
                0 <= c < width ==> (#[trigger] grid@[r]@[c]) == base_char(width, height, t1, (r as usize, c as usize)) by {
                if r != w.0 {
                    assert(grid@[r] == g0[r]);
                }
                assert forall|c: int| 0 <= c < width implies (#[trigger] grid@[r]@[c]) == base_char(width, height, t1, (r as usize, c as usize)) by {
                    if r != w.0 {
                        assert(grid@[r] == g0[r]);
                    } else if c != w.1 {
                        assert(grid@[r]@[c] == g0[r]@[c]);
                    }
                }
            }
        }
        i = i + 1;
    }
    assert(walls@.take(walls@.len() as int) =~= walls@);
    let n = chosen.len();
    let mut k: usize = 0;
    while k < n
        invariant
            k <= n,
            n == chosen@.len(),
            n == 2 + num_enemies + num_traps,
            chosen@.no_duplicates(),
            forall|j: int| 0 <= j < chosen@.len() ==> is_interior(width, height, #[trigger] chosen@[j]),
            grid@.len() == height,
            forall|r: int| 0 <= r < height ==> (#[trigger] grid@[r])@.len() == width && forall|c: int|
                0 <= c < width ==> (#[trigger] grid@[r]@[c]) == if chosen@.take(k as int).contains((r as usize, c as usize)) {
                    placed_char(n as int, num_traps as int, choose|j: int| 0 <= j < k && chosen@[j] == (r as usize, c as usize))
                } else {
                    base_char(width, height, walls@, (r as usize, c as usize))
                },
        decreases n - k,
    {
        let p = chosen[k];
        assert(is_interior(width, height, chosen@[k as int]));
        let ch = if k == n - 1 {
            'P'
        } else if k == n - 2 {
            'G'
        } else if k >= num_traps {
            'E'
        } else {
            'T'
        };
        let ghost g0 = grid@;
        grid[p.0].set(p.1, ch);
        proof {
            let t0 = chosen@.take(k as int);
            let t1 = chosen@.take(k + 1);
            assert(t1 =~= t0.push(p));
            assert forall|x: (usize, usize)| #[trigger] t1.contains(x) <==> (t0.contains(x) || x == p) by {
                if t1.contains(x) {
                    let j = choose|j: int| 0 <= j < t1.len() && t1[j] == x;
                    if j < k {
                        assert(t0[j] == x);
                    }
                }
                if t0.contains(x) {
                    let j = choose|j: int| 0 <= j < t0.len() && t0[j] == x;
                    assert(t1[j] == x);
                }
                if x == p {
                    assert(t1[k as int] == x);
                }
            }
            assert(!t0.contains(p)) by {
                if t0.contains(p) {
                    let j = choose|j: int| 0 <= j < t0.len() && t0[j] == p;
                    assert(chosen@[j] == chosen@[k as int]);
                }
            }
            assert forall|r: int| 0 <= r < height implies (#[trigger] grid@[r])@.len() == width && forall|c: int|
                0 <= c < width ==> (#[trigger] grid@[r]@[c]) == if t1.contains((r as usize, c as usize)) {
                    placed_char(n as int, num_traps as int, choose|j: int| 0 <= j < k + 1 && chosen@[j] == (r as usize, c as usize))
                } else {
                    base_char(width, height, walls@, (r as usize, c as usize))
                } by {
                if r != p.0 {
                    assert(grid@[r] == g0[r]);
                }
                assert forall|c: int| 0 <= c < width implies (#[trigger] grid@[r]@[c]) == if t1.contains((r as usize, c as usize)) {
                    placed_char(n as int, num_traps as int, choose|j: int| 0 <= j < k + 1 && chosen@[j] == (r as usize, c as usize))
                } else {
                    base_char(width, height, walls@, (r as usize, c as usize))
                } by {
                    let x = (r as usize, c as usize);
                    if r != p.0 || c != p.1 {
                        if r != p.0 {
                            assert(grid@[r] == g0[r]);
                        } else {
                            assert(grid@[r]@[c] == g0[r]@[c]);
                        }
                        if t0.contains(x) {
                            let j0 = choose|j: int| 0 <= j < k && chosen@[j] == x;
                            let j1 = choose|j: int| 0 <= j < k + 1 && chosen@[j] == x;
                            let jt = choose|j: int| 0 <= j < t0.len() && t0[j] == x;
                            assert(chosen@[jt] == x);
                            assert(j0 == j1) by {
                                if j0 != j1 {
                                    assert(chosen@[j0] == chosen@[j1]);
                                }
                            }
                        }
                    } else {
                        assert(x == p);
                        let j1 = choose|j: int| 0 <= j < k + 1 && chosen@[j] == x;
                        assert(chosen@[k as int] == x);
                        assert(j1 == k) by {
                            if j1 != k {
                                assert(chosen@[j1] == chosen@[k as int]);
                            }
                        }
                    }
                }
            }
        }
        k = k + 1;
    }
    proof {
        assert(chosen@.take(n as int) =~= chosen@);
        let rows = generated_rows(width, height, walls@, chosen@, num_traps as int);
        assert(rows_view(grid@) =~= rows) by {
            assert forall|r: int| 0 <= r < height implies rows_view(grid@)[r] =~= rows[r] by {
                assert forall|c: int| 0 <= c < width implies grid@[r]@[c] == rows[r][c] by {
                    let x = (r as usize, c as usize);
                    if chosen@.contains(x) {
                        let j0 = choose|j: int| 0 <= j < n && chosen@[j] == x;
                        let j1 = choose|j: int| 0 <= j < chosen@.len() && chosen@[j] == x;
                        assert(j0 == j1) by {
                            if j0 != j1 {
                                assert(chosen@[j0] == chosen@[j1]);
                            }
                        }
                    }
                }
            }
        }
    }
    let text = join_rows(&grid);
    string_of(&text)
}

/// The grid distance between two cells: the number of steps up, down, left
/// and right that lead from one to the other.
pub open spec fn grid_dist(p: (usize, usize), q: (usize, usize)) -> int {
    (if p.0 >= q.0 { p.0 - q.0 } else { q.0 - p.0 }) + (if p.1 >= q.1 { p.1 - q.1 } else { q.1 - p.1 })
}

/// The interior of a `height` by `width` grid has two distinct cells at
/// least `min_distance` apart, room for a player and a goal.
pub open spec fn player_goal_room(width: usize, height: usize, min_distance: usize) -> bool {
    exists|p: (usize, usize), g: (usize, usize)|
        is_interior(width, height, p) && is_interior(width, height, g) && p != g && #[trigger] grid_dist(p, g)
            >= min_distance
}

/// Two interior cells are at most `(height - 3) + (width - 3)` apart, and
/// opposite corners of the interior are that far apart: so a player and a
/// goal fit at distance `min_distance` exactly when the grid is at least 3
/// by 3 and that span reaches `min_distance` (and 1, so that the cells
/// differ).
pub proof fn lemma_player_goal_room(width: usize, height: usize, min_distance: usize)
    ensures
        player_goal_room(width, height, min_distance) <==> (3 <= width && 3 <= height && (height - 3) + (width
            - 3) >= (if min_distance == 0 { 1 } else { min_distance as int })),
{
    let need: int = if min_distance == 0 { 1 } else { min_distance as int };
    if 3 <= width && 3 <= height && (height - 3) + (width - 3) >= need {
        let p: (usize, usize) = (1, 1);
        let g: (usize, usize) = ((height - 2) as usize, (width - 2) as usize);
        assert(grid_dist(p, g) == (height - 3) + (width - 3));
        assert(p != g);
    }
    if player_goal_room(width, height, min_distance) {
        let (p, g) = choose|p: (usize, usize), g: (usize, usize)|
            is_interior(width, height, p) && is_interior(width, height, g) && p != g && #[trigger] grid_dist(p, g)
                >= min_distance;
        assert(grid_dist(p, g) <= (height - 3) + (width - 3));
        assert(grid_dist(p, g) >= 1);
    }
}

/// Whether a player and a goal fit in the interior of a `height` by `width`
/// grid at least `min_distance` apart.
pub fn has_player_goal_room(width: usize, height: usize, min_distance: usize) -> (b: bool)
    ensures
        b == player_goal_room(width, height, min_distance),
{
    proof {
        lemma_player_goal_room(width, height, min_distance);
    }
    if width < 3 || height < 3 {
        return false;
    }
    let need: usize = if min_distance == 0 { 1 } else { min_distance };
    let rows: usize = height - 3;
    let cols: usize = width - 3;
    rows >= need || cols >= need - rows
}

/// `text` is the layout with border walls, the interior walls `walls`, and
/// the entities on the cells of `chosen` (see `generated_text`): a player,
/// a goal, `num_enemies` enemies and `num_traps` traps on distinct interior
/// cells, the player (the last) at least `min_distance` from the goal (the
/// one before it).
pub open spec fn generated_with(
    text: Seq<char>,
    width: usize,
    height: usize,
    walls: Seq<(usize, usize)>,
    num_enemies: usize,
    num_traps: usize,
    min_distance: usize,
    chosen: Seq<(usize, usize)>,
) -> bool {
    &&& chosen.len() == 2 + num_enemies + num_traps
    &&& chosen.no_duplicates()
    &&& forall|k: int| 0 <= k < chosen.len() ==> is_interior(width, height, #[trigger] chosen[k])
    &&& grid_dist(chosen[chosen.len() - 1], chosen[chosen.len() - 2]) >= min_distance
    &&& text == generated_text(width, height, walls, chosen, num_traps as int)
}

/// `text` is a layout with border walls, the given interior walls, and a
/// player, a goal, `num_enemies` enemies and `num_traps` traps on distinct
/// interior cells, the player at least `min_distance` from the goal.
pub open spec fn generated_from(
    text: Seq<char>,
    width: usize,
    height: usize,
    walls: Seq<(usize, usize)>,
    num_enemies: usize,
    num_traps: usize,
    min_distance: usize,
) -> bool {
    exists|chosen: Seq<(usize, usize)>|
        #[trigger] generated_with(text, width, height, walls, num_enemies, num_traps, min_distance, chosen)
}

/// Whether two cells are at least `min_distance` apart.
fn far_enough(p: (usize, usize), q: (usize, usize), min_distance: usize) -> (b: bool)
    ensures
        b == (grid_dist(p, q) >= min_distance),
{
    let dr: usize = if p.0 >= q.0 { p.0 - q.0 } else { q.0 - p.0 };
    let dc: usize = if p.1 >= q.1 { p.1 - q.1 } else { q.1 - p.1 };
    dr >= min_distance || dc >= min_distance - dr
}

/// The positions of `cells`, other than `i`, whose cells are at least
/// `min_distance` from `cells[i]`; empty only when there is none.
fn far_from(cells: &Vec<(usize, usize)>, i: usize, min_distance: usize) -> (far: Vec<usize>)
    requires
        i < cells@.len(),
    ensures
        forall|k: int|
            0 <= k < far@.len() ==> #[trigger] far@[k] < cells@.len() && far@[k] != i && grid_dist(
                cells@[i as int],
                cells@[far@[k] as int],
            ) >= min_distance,
        far@.len() == 0 ==> forall|j: int|
            0 <= j < cells@.len() && j != i ==> #[trigger] grid_dist(cells@[i as int], cells@[j]) < min_distance,
{
    let mut far: Vec<usize> = Vec::new();
    let mut j: usize = 0;
    while j < cells.len()
        invariant
            i < cells@.len(),
            j <= cells@.len(),
            forall|k: int|
                0 <= k < far@.len() ==> #[trigger] far@[k] < cells@.len() && far@[k] != i && grid_dist(
                    cells@[i as int],
                    cells@[far@[k] as int],
                ) >= min_distance,
            far@.len() == 0 ==> forall|b: int|
                0 <= b < j && b != i ==> #[trigger] grid_dist(cells@[i as int], cells@[b]) < min_distance,
        decreases cells@.len() - j,
    {
        if j != i && far_enough(cells[i], cells[j], min_distance) {
            let ghost before = far@;
            far.push(j);
            assert forall|k: int| 0 <= k < far@.len() implies #[trigger] far@[k] < cells@.len() && far@[k] != i
                && grid_dist(cells@[i as int], cells@[far@[k] as int]) >= min_distance by {
                if k < before.len() {
                    assert(far@[k] == before[k]);
                }
            }
        }
        j = j + 1;
    }
    far
}

/// The positions of `cells` whose cells have another at least
/// `min_distance` away; empty only when no two cells are that far apart.
fn with_far_partner(cells: &Vec<(usize, usize)>, min_distance: usize) -> (found: Vec<usize>)
    ensures
        forall|k: int|
            0 <= k < found@.len() ==> #[trigger] found@[k] < cells@.len() && exists|j: int|
                0 <= j < cells@.len() && j != found@[k] && #[trigger] grid_dist(cells@[found@[k] as int], cells@[j])
                    >= min_distance,
        found@.len() == 0 ==> forall|i: int, j: int|
            0 <= i < cells@.len() && 0 <= j < cells@.len() && i != j ==> #[trigger] grid_dist(cells@[i], cells@[j])
                < min_distance,
{
    let mut found: Vec<usize> = Vec::new();
    let mut i: usize = 0;
    while i < cells.len()
        invariant
            i <= cells@.len(),
            forall|k: int|
                0 <= k < found@.len() ==> #[trigger] found@[k] < cells@.len() && exists|j: int|
                    0 <= j < cells@.len() && j != found@[k] && #[trigger] grid_dist(cells@[found@[k] as int], cells@[j])
                        >= min_distance,
            found@.len() == 0 ==> forall|a: int, b: int|
                0 <= a < i && 0 <= b < cells@.len() && a != b ==> #[trigger] grid_dist(cells@[a], cells@[b])
                    < min_distance,
        decreases cells@.len() - i,
    {
        let far = far_from(cells, i, min_distance);
        if far.len() > 0 {
            let ghost before = found@;
            found.push(i);
            proof {
                let j = far@[0] as int;
                assert(grid_dist(cells@[i as int], cells@[j]) >= min_distance);
                assert forall|k: int| 0 <= k < found@.len() implies #[trigger] found@[k] < cells@.len() && exists|j: int|
                    0 <= j < cells@.len() && j != found@[k] && #[trigger] grid_dist(cells@[found@[k] as int], cells@[j])
                        >= min_distance by {
                    if k < before.len() {
                        assert(found@[k] == before[k]);
                    } else {
                        assert(found@[k] == i);
                        assert(grid_dist(cells@[found@[k] as int], cells@[j]) >= min_distance);
                    }
                }
            }
        }
        i = i + 1;
    }
    found
}

/// The cells of `cells` but those at positions `skip_a` and `skip_b`, in
/// order.
fn all_but(cells: &Vec<(usize, usize)>, skip_a: usize, skip_b: usize) -> (rest: Vec<(usize, usize)>)
    requires
        cells@.no_duplicates(),
        skip_a < cells@.len(),
        skip_b < cells@.len(),
        skip_a != skip_b,
    ensures
        rest@.len() == cells@.len() - 2,
        rest@.no_duplicates(),
        forall|x: (usize, usize)|
            rest@.contains(x) ==> cells@.contains(x) && x != cells@[skip_a as int] && x != cells@[skip_b as int],
{
    let mut rest: Vec<(usize, usize)> = Vec::new();
    let ghost mut src: Seq<int> = seq![];
    let mut k: usize = 0;
    while k < cells.len()
        invariant
            k <= cells@.len(),
            cells@.no_duplicates(),
            skip_a < cells@.len(),
            skip_b < cells@.len(),
            skip_a != skip_b,
            rest@.len() + (if skip_a < k { 1int } else { 0int }) + (if skip_b < k { 1int } else { 0int }) == k,
            rest@.no_duplicates(),
            src.len() == rest@.len(),
            forall|a: int|
                0 <= a < src.len() ==> 0 <= #[trigger] src[a] < k && src[a] != skip_a && src[a] != skip_b && rest@[a]
                    == cells@[src[a]],
        decreases cells@.len() - k,
    {
        if k != skip_a && k != skip_b {
            let ghost before = rest@;
            let ghost before_src = src;
            rest.push(cells[k]);
            proof {
                src = src.push(k as int);
                assert forall|a: int| 0 <= a < src.len() implies 0 <= #[trigger] src[a] < k + 1 && src[a] != skip_a
                    && src[a] != skip_b && rest@[a] == cells@[src[a]] by {
                    if a < before.len() {
                        assert(rest@[a] == before[a] && src[a] == before_src[a]);
                    }
                }
                assert(rest@.no_duplicates()) by {
                    assert forall|a: int, b: int|
                        0 <= a < rest@.len() && 0 <= b < rest@.len() && a != b implies rest@[a] != rest@[b] by {
                        if a < before.len() && b < before.len() {
                            assert(rest@[a] == before[a] && rest@[b] == before[b]);
                        } else if a < before.len() {
                            assert(src[a] == before_src[a] && 0 <= before_src[a] < k);
                        } else if b < before.len() {
                            assert(src[b] == before_src[b] && 0 <= before_src[b] < k);
                        }
                    }
                }
            }
        }
        k = k + 1;
    }
    assert forall|x: (usize, usize)| rest@.contains(x) implies cells@.contains(x) && x != cells@[skip_a as int] && x
        != cells@[skip_b as int] by {
        let a = choose|a: int| 0 <= a < rest@.len() && rest@[a] == x;
        assert(0 <= src[a] < k);
        assert(cells@.contains(cells@[src[a]]));
    }
    rest
}

/// A random layout: border walls, the given interior walls, and a player,
/// a goal, `num_enemies` enemies and `num_traps` traps on distinct interior
/// cells drawn at random (an entity may cover a wall), the player at least
/// `min_player_goal_distance` from the goal.
pub fn build_layout(
    width: usize,
    height: usize,
    walls: &Vec<(usize, usize)>,
    num_enemies: usize,
    num_traps: usize,
    min_player_goal_distance: usize,
) -> (layout: String)
    requires
        2 + num_enemies + num_traps <= usize::MAX,
        (2 + num_enemies + num_traps) <= Set::new(|p: (usize, usize)| is_interior(width, height, p)).len(),
        player_goal_room(width, height, min_player_goal_distance),
        forall|k: int| 0 <= k < walls@.len() ==> is_interior(width, height, #[trigger] walls@[k]),
    ensures
        generated_from(layout@, width, height, walls@, num_enemies, num_traps, min_player_goal_distance),
{
    let cells = interior_cells(width, height);
    proof {
        cells@.unique_seq_to_set();
        assert(cells@.to_set() =~= Set::new(|p: (usize, usize)| is_interior(width, height, p)));
    }
    let players = with_far_partner(&cells, min_player_goal_distance);
    proof {
        let (p, g) = choose|p: (usize, usize), g: (usize, usize)|
            is_interior(width, height, p) && is_interior(width, height, g) && p != g && #[trigger] grid_dist(p, g)
                >= min_player_goal_distance;
        assert(cells@.contains(p));
        assert(cells@.contains(g));
        let i = choose|i: int| 0 <= i < cells@.len() && cells@[i] == p;
        let j = choose|j: int| 0 <= j < cells@.len() && cells@[j] == g;
        assert(grid_dist(cells@[i], cells@[j]) >= min_player_goal_distance);
    }
    let pi = players[random_below(players.len())];
    proof {
        let j = choose|j: int|
            0 <= j < cells@.len() && j != pi && #[trigger] grid_dist(cells@[pi as int], cells@[j])
                >= min_player_goal_distance;
        assert(grid_dist(cells@[pi as int], cells@[j]) >= min_player_goal_distance);
    }
    let goals = far_from(&cells, pi, min_player_goal_distance);
    let gi = goals[random_below(goals.len())];
    let others = all_but(&cells, pi, gi);
    let mut chosen = choose_several(&others, num_enemies + num_traps);
    let n = 2 + num_enemies + num_traps;
    proof {
        let idx = choose|idx: Seq<int>|
            #![trigger idx.len()]
            idx.len() == chosen@.len() && idx.no_duplicates() && forall|k: int|
                0 <= k < idx.len() ==> 0 <= #[trigger] idx[k] < others@.len() && chosen@[k] == others@[idx[k]];
        assert forall|k: int| 0 <= k < chosen@.len() implies #[trigger] others@.contains(chosen@[k]) by {
            assert(0 <= idx[k] < others@.len());
        }
        assert(chosen@.no_duplicates()) by {
            assert forall|a: int, b: int| 0 <= a < chosen@.len() && 0 <= b < chosen@.len() && a != b implies chosen@[a]
                != chosen@[b] by {
                assert(idx[a] != idx[b]);
                assert(0 <= idx[a] < others@.len());
                assert(0 <= idx[b] < others@.len());
            }
        }
    }
    let ghost rest = chosen@;
    chosen.push(cells[gi]);
    chosen.push(cells[pi]);
    proof {
        let c = chosen@;
        assert(c.len() == n);
        assert(c[n - 1] == cells@[pi as int]);
        assert(c[n - 2] == cells@[gi as int]);
        assert(cells@[pi as int] != cells@[gi as int]);
        assert forall|k: int| 0 <= k < n - 2 implies #[trigger] c[k] == rest[k] && others@.contains(rest[k]) by {
            assert(others@.contains(rest[k]));
        }
        assert(c.no_duplicates()) by {
            assert forall|a: int, b: int| 0 <= a < c.len() && 0 <= b < c.len() && a != b implies c[a] != c[b] by {
                if a < n - 2 && b < n - 2 {
                    assert(c[a] == rest[a] && c[b] == rest[b]);
                } else if a < n - 2 {
                    assert(c[a] == rest[a] && others@.contains(rest[a]));
                } else if b < n - 2 {
                    assert(c[b] == rest[b] && others@.contains(rest[b]));
                }
            }
        }
        assert forall|k: int| 0 <= k < c.len() implies is_interior(width, height, #[trigger] c[k]) by {
            if k < n - 2 {
                assert(c[k] == rest[k] && others@.contains(rest[k]));
                assert(cells@.contains(c[k]));
            } else {
                assert(cells@.contains(cells@[pi as int]));
                assert(cells@.contains(cells@[gi as int]));
            }
        }
    }
    let layout = compose_layout(width, height, walls, &chosen, num_enemies, num_traps);
    assert(generated_with(
        layout@,
        width,
        height,
        walls@,
        num_enemies,
        num_traps,
        min_player_goal_distance,
        chosen@,
    ));
    layout
}

/// The cells of generated rows hold layout characters other than `\n` and
/// `\r`, and the text of the rows reads back as the rows.
proof fn lemma_generated_lines(
    width: usize,
    height: usize,
    walls: Seq<(usize, usize)>,
    chosen: Seq<(usize, usize)>,
    nt: int,
)
    requires
        chosen.len() >= 1,
        is_interior(width, height, chosen[0]),
    ensures
        forall|r: int, c: int|
            0 <= r < height && 0 <= c < width ==> {
                let ch = #[trigger] generated_rows(width, height, walls, chosen, nt)[r][c];
                ch == '#' || ch == '.' || ch == 'P' || ch == 'G' || ch == 'E' || ch == 'T'
            },
        char_rows(generated_text(width, height, walls, chosen, nt)) == generated_rows(width, height, walls, chosen, nt),
{
    let rows = generated_rows(width, height, walls, chosen, nt);
    assert forall|r: int, c: int| 0 <= r < height && 0 <= c < width implies {
        let ch = #[trigger] rows[r][c];
        ch == '#' || ch == '.' || ch == 'P' || ch == 'G' || ch == 'E' || ch == 'T'
    } by {
        assert(rows[r][c] == generated_char(width, height, walls, chosen, nt, (r as usize, c as usize)));
    }
    assert(rows_without_newline(rows)) by {
        assert forall|r: int| 0 <= r < rows.len() implies has_no_newline(#[trigger] rows[r]) by {
            assert forall|i: int| 0 <= i < rows[r].len() implies rows[r][i] != '\n' by {
                let ch = rows[r][i];
                assert(ch == '#' || ch == '.' || ch == 'P' || ch == 'G' || ch == 'E' || ch == 'T');
            }
        }
    }
    assert(rows_without_cr_end(rows)) by {
        assert forall|r: int| 0 <= r < rows.len() && (#[trigger] rows[r]).len() > 0 implies rows[r].last() != '\r' by {
            let ch = rows[r][rows[r].len() - 1];
            assert(ch == '#' || ch == '.' || ch == 'P' || ch == 'G' || ch == 'E' || ch == 'T');
        }
    }
    assert(rows.last().len() == width);
    lemma_lines_of_joined(rows);
}

/// The cells of a grid that hold `ch`.
pub open spec fn cells_with(g: Seq<Seq<char>>, ch: char) -> Set<(int, int)> {
    Set::new(|p: (int, int)| has_char_at(g, ch, p))
}

/// The cells of generated rows that hold an entity character are the
/// chosen cells whose positions in `chosen` give that character.
proof fn lemma_placed_cells(
    width: usize,
    height: usize,
    walls: Seq<(usize, usize)>,
    chosen: Seq<(usize, usize)>,
    nt: int,
    ch: char,
    a: int,
    b: int,
)
    requires
        chosen.no_duplicates(),
        forall|k: int| 0 <= k < chosen.len() ==> is_interior(width, height, #[trigger] chosen[k]),
        0 <= a <= b <= chosen.len(),
        ch != '#' && ch != '.',
        forall|k: int| 0 <= k < chosen.len() ==> (placed_char(chosen.len() as int, nt, k) == ch <==> a <= k < b),
    ensures
        cells_with(generated_rows(width, height, walls, chosen, nt), ch).finite(),
        cells_with(generated_rows(width, height, walls, chosen, nt), ch).len() == b - a,
{
    let rows = generated_rows(width, height, walls, chosen, nt);
    let n = chosen.len() as int;
    let sq = Seq::new((b - a) as nat, |i: int| (chosen[a + i].0 as int, chosen[a + i].1 as int));
    assert(sq.no_duplicates()) by {
        assert forall|i: int, j: int| 0 <= i < sq.len() && 0 <= j < sq.len() && i != j implies sq[i] != sq[j] by {
            assert(chosen[a + i] != chosen[a + j]);
        }
    }
    assert forall|q: (int, int)| has_char_at(rows, ch, q) <==> sq.contains(q) by {
        if has_char_at(rows, ch, q) {
            let x = (q.0 as usize, q.1 as usize);
            assert(rows[q.0][q.1] == generated_char(width, height, walls, chosen, nt, x));
            assert(chosen.contains(x));
            let k = choose|k: int| 0 <= k < chosen.len() && chosen[k] == x;
            assert(placed_char(n, nt, k) == ch);
            assert(sq[k - a] == q);
        }
        if sq.contains(q) {
            let i = choose|i: int| 0 <= i < sq.len() && sq[i] == q;
            let x = chosen[a + i];
            assert(is_interior(width, height, x));
            assert(x == (q.0 as usize, q.1 as usize));
            assert(chosen.contains(x));
            let k = choose|k: int| 0 <= k < chosen.len() && chosen[k] == x;
            assert(k == a + i) by {
                if k != a + i {
                    assert(chosen[k] == chosen[a + i]);
                }
            }
            assert(rows[q.0][q.1] == generated_char(width, height, walls, chosen, nt, x));
        }
    }
    assert(cells_with(rows, ch) =~= sq.to_set());
    sq.unique_seq_to_set();
}

/// The lines of a layout composed from the chosen cells hold exactly one
/// player, one goal, `num_enemies` enemies and `num_traps` traps.
pub proof fn lemma_generated_counts(
    width: usize,
    height: usize,
    walls: Seq<(usize, usize)>,
    chosen: Seq<(usize, usize)>,
    num_enemies: usize,
    num_traps: usize,
)
    requires
        chosen.len() == 2 + num_enemies + num_traps,
        chosen.no_duplicates(),
        forall|k: int| 0 <= k < chosen.len() ==> is_interior(width, height, #[trigger] chosen[k]),
    ensures
        ({
            let g = char_rows(generated_text(width, height, walls, chosen, num_traps as int));
            &&& cells_with(g, 'P').len() == 1
            &&& cells_with(g, 'G').len() == 1
            &&& cells_with(g, 'E').len() == num_enemies
            &&& cells_with(g, 'T').len() == num_traps
        }),
{
    let nt = num_traps as int;
    let n = chosen.len() as int;
    assert(is_interior(width, height, chosen[0]));
    lemma_generated_lines(width, height, walls, chosen, nt);
    lemma_placed_cells(width, height, walls, chosen, nt, 'P', n - 1, n);
    lemma_placed_cells(width, height, walls, chosen, nt, 'G', n - 2, n - 1);
    lemma_placed_cells(width, height, walls, chosen, nt, 'E', nt, nt + num_enemies);
    lemma_placed_cells(width, height, walls, chosen, nt, 'T', 0, nt);
}

/// The lines of a layout composed from the chosen cells: `height` lines of
/// `width` cells; the last chosen cell holds the player, the one before it
/// the goal, the first `num_traps` the traps and the others the enemies;
/// every other cell is a wall on the border or on a wall cell, and floor
/// elsewhere.
pub proof fn lemma_generated_cells(
    width: usize,
    height: usize,
    walls: Seq<(usize, usize)>,
    chosen: Seq<(usize, usize)>,
    num_enemies: usize,
    num_traps: usize,
)
    requires
        chosen.len() == 2 + num_enemies + num_traps,
        chosen.no_duplicates(),
        forall|k: int| 0 <= k < chosen.len() ==> is_interior(width, height, #[trigger] chosen[k]),
    ensures
        ({
            let g = char_rows(generated_text(width, height, walls, chosen, num_traps as int));
            let n = chosen.len() as int;
            &&& g.len() == height
            &&& forall|r: int| 0 <= r < height ==> (#[trigger] g[r]).len() == width
            &&& g[chosen[n - 1].0 as int][chosen[n - 1].1 as int] == 'P'
            &&& g[chosen[n - 2].0 as int][chosen[n - 2].1 as int] == 'G'
            &&& forall|k: int| 0 <= k < num_traps ==> g[chosen[k].0 as int][(#[trigger] chosen[k]).1 as int] == 'T'
            &&& forall|k: int|
                num_traps <= k < n - 2 ==> g[chosen[k].0 as int][(#[trigger] chosen[k]).1 as int] == 'E'
            &&& forall|r: int, c: int|
                0 <= r < height && 0 <= c < width && !chosen.contains((r as usize, c as usize)) ==> {
                    let ch = #[trigger] g[r][c];
                    &&& (r == 0 || r + 1 == height || c == 0 || c + 1 == width || walls.contains(
                        (r as usize, c as usize),
                    )) ==> ch == '#'
                    &&& !(r == 0 || r + 1 == height || c == 0 || c + 1 == width || walls.contains(
                        (r as usize, c as usize),
                    )) ==> ch == '.'
                }
        }),
{
    let nt = num_traps as int;
    let n = chosen.len() as int;
    let rows = generated_rows(width, height, walls, chosen, nt);
    assert(is_interior(width, height, chosen[0]));
    lemma_generated_lines(width, height, walls, chosen, nt);
    assert forall|k: int| 0 <= k < n implies rows[chosen[k].0 as int][(#[trigger] chosen[k]).1 as int]
        == placed_char(n, nt, k) by {
        let x = chosen[k];
        assert(is_interior(width, height, x));
        assert(rows[x.0 as int][x.1 as int] == generated_char(width, height, walls, chosen, nt, x));
        assert(chosen.contains(x));
        let j = choose|j: int| 0 <= j < chosen.len() && chosen[j] == x;
        assert(j == k) by {
            if j != k {
                assert(chosen[j] == chosen[k]);
            }
        }
    }
    assert(rows[chosen[n - 1].0 as int][chosen[n - 1].1 as int] == placed_char(n, nt, n - 1));
    assert(rows[chosen[n - 2].0 as int][chosen[n - 2].1 as int] == placed_char(n, nt, n - 2));
    assert forall|r: int, c: int|
        0 <= r < height && 0 <= c < width && !chosen.contains((r as usize, c as usize)) implies #[trigger] rows[r][c]
        == base_char(width, height, walls, (r as usize, c as usize)) by {
        assert(rows[r][c] == generated_char(width, height, walls, chosen, nt, (r as usize, c as usize)));
    }
}

/// A generated layout holds exactly one player, one goal, `num_enemies`
/// enemies and `num_traps` traps.
pub proof fn lemma_generated_from_counts(
    text: Seq<char>,
    width: usize,
    height: usize,
    walls: Seq<(usize, usize)>,
    num_enemies: usize,
    num_traps: usize,
    min_distance: usize,
)
    requires
        generated_from(text, width, height, walls, num_enemies, num_traps, min_distance),
    ensures
        cells_with(char_rows(text), 'P').len() == 1,
        cells_with(char_rows(text), 'G').len() == 1,
        cells_with(char_rows(text), 'E').len() == num_enemies,
        cells_with(char_rows(text), 'T').len() == num_traps,
{
    let chosen = choose|chosen: Seq<(usize, usize)>|
        #[trigger] generated_with(text, width, height, walls, num_enemies, num_traps, min_distance, chosen);
    lemma_generated_counts(width, height, walls, chosen, num_enemies, num_traps);
}

/// A generated layout is read by the reachability check, and its lines end
/// in no carriage return.
proof fn lemma_generated_searchable(
    text: Seq<char>,
    width: usize,
    height: usize,
    walls: Seq<(usize, usize)>,
    num_enemies: usize,
    num_traps: usize,
    min_distance: usize,
)
    requires
        generated_from(text, width, height, walls, num_enemies, num_traps, min_distance),
        width <= i32::MAX,
        height <= i32::MAX,
    ensures
        searchable(text),
        rows_without_cr_end(char_rows(text)),
{
    let chosen = choose|chosen: Seq<(usize, usize)>|
        #[trigger] generated_with(text, width, height, walls, num_enemies, num_traps, min_distance, chosen);
    let nt = num_traps as int;
    let rows = generated_rows(width, height, walls, chosen, nt);
    let n = chosen.len() as int;
    assert(is_interior(width, height, chosen[0]));
    lemma_generated_lines(width, height, walls, chosen, nt);
    assert(char_rows(text) == rows);
    assert(rows_without_cr_end(rows)) by {
        assert forall|r: int| 0 <= r < rows.len() && (#[trigger] rows[r]).len() > 0 implies rows[r].last() != '\r' by {
            let ch = rows[r][rows[r].len() - 1];
            assert(ch == '#' || ch == '.' || ch == 'P' || ch == 'G' || ch == 'E' || ch == 'T');
        }
    }
    let pp = chosen[n - 1];
    let gp = chosen[n - 2];
    assert(is_interior(width, height, pp));
    assert(is_interior(width, height, gp));
    let kp = choose|k: int| 0 <= k < chosen.len() && chosen[k] == pp;
    assert(kp == n - 1);
    let kg = choose|k: int| 0 <= k < chosen.len() && chosen[k] == gp;
    assert(kg == n - 2);
    assert(rows[pp.0 as int][pp.1 as int] == generated_char(width, height, walls, chosen, nt, pp));
    assert(has_char_at(rows, 'P', (pp.0 as int, pp.1 as int)));
    assert(rows[gp.0 as int][gp.1 as int] == generated_char(width, height, walls, chosen, nt, gp));
    assert(has_char_at(rows, 'G', (gp.0 as int, gp.1 as int)));
}

/// A line that starts and ends with a character that is not whitespace is
/// its own trim.
proof fn lemma_trim_clean(l: Seq<char>)
    requires
        l.len() > 0,
        !is_ws(l[0]),
        !is_ws(l.last()),
    ensures
        trim(l) == l,
{
    assert(lead_ws(l) == 0);
    assert(l.skip(0) =~= l);
    assert(trail_ws(l) == 0);
    assert(l.take(l.len() as int) =~= l);
}

/// Every generated layout parses: its lines are its generated rows, all as
/// long as the first and made of layout characters.
pub proof fn lemma_generated_layout_parses(
    text: Seq<char>,
    width: usize,
    height: usize,
    walls: Seq<(usize, usize)>,
    num_enemies: usize,
    num_traps: usize,
    min_distance: usize,
)
    requires
        generated_from(text, width, height, walls, num_enemies, num_traps, min_distance),
        width <= i32::MAX,
        height <= i32::MAX,
    ensures
        valid_layout(text),
{
    let chosen = choose|chosen: Seq<(usize, usize)>|
        #[trigger] generated_with(text, width, height, walls, num_enemies, num_traps, min_distance, chosen);
    let nt = num_traps as int;
    let rows = generated_rows(width, height, walls, chosen, nt);
    assert(is_interior(width, height, chosen[0]));
    lemma_generated_lines(width, height, walls, chosen, nt);
    assert(char_rows(text) == rows);
    assert forall|r: int, c: int| 0 <= r < rows.len() && 0 <= c < rows[r].len() implies is_layout_char(#[trigger] rows[r][c]) by {
        let ch = rows[r][c];
        assert(ch == '#' || ch == '.' || ch == 'P' || ch == 'G' || ch == 'E' || ch == 'T');
    }
    assert forall|r: int| 0 <= r < rows.len() implies #[trigger] trim(rows[r]) == rows[r] by {
        assert(rows[r][0] == generated_char(width, height, walls, chosen, nt, (r as usize, 0usize)));
        assert(rows[r].last() == generated_char(width, height, walls, chosen, nt, (r as usize, (width - 1) as usize)));
        lemma_trim_clean(rows[r]);
    }
    assert(layout_rows(text) =~= rows);
}

/// Each attempt `tried[j]` was built from `wall_sets[j]` and its goal could
/// not be reached.
pub open spec fn failed_layouts(
    width: usize,
    height: usize,
    wall_sets: Seq<Vec<(usize, usize)>>,
    num_enemies: usize,
    num_traps: usize,
    min_distance: usize,
    tried: Seq<Seq<char>>,
) -> bool {
    &&& tried.len() <= wall_sets.len()
    &&& forall|j: int|
        0 <= j < tried.len() ==> generated_from(
            #[trigger] tried[j],
            width,
            height,
            wall_sets[j]@,
            num_enemies,
            num_traps,
            min_distance,
        )
            && !goal_reachable(tried[j])
}

/// Builds a layout from each wall set in turn (see `build_layout`), keeping
/// the first whose goal can be reached from its player; `None` when every
/// attempt fails (or there is none).
pub fn generate_valid_layout(
    width: usize,
    height: usize,
    wall_sets: &Vec<Vec<(usize, usize)>>,
    num_enemies: usize,
    num_traps: usize,
    min_player_goal_distance: usize,
) -> (found: Option<String>)
    requires
        width <= i32::MAX,
        height <= i32::MAX,
        2 + num_enemies + num_traps <= usize::MAX,
        (2 + num_enemies + num_traps) <= Set::new(|p: (usize, usize)| is_interior(width, height, p)).len(),
        player_goal_room(width, height, min_player_goal_distance),
        forall|k: int, i: int|
            0 <= k < wall_sets@.len() && 0 <= i < wall_sets@[k]@.len() ==> is_interior(width, height, #[trigger] wall_sets@[k]@[i]),
    ensures
        match found {
            Some(s) => exists|tried: Seq<Seq<char>>|
                {
                    &&& #[trigger] failed_layouts(width, height, wall_sets@, num_enemies, num_traps, min_player_goal_distance, tried)
                    &&& tried.len() < wall_sets@.len()
                    &&& generated_from(s@, width, height, wall_sets@[tried.len() as int]@, num_enemies, num_traps, min_player_goal_distance)
                    &&& goal_reachable(s@)
                },
            None => exists|tried: Seq<Seq<char>>|
                #[trigger] failed_layouts(width, height, wall_sets@, num_enemies, num_traps, min_player_goal_distance, tried) && tried.len() == wall_sets@.len(),
        },
{
    let ghost mut tried: Seq<Seq<char>> = seq![];
    let mut k: usize = 0;
    while k < wall_sets.len()
        invariant
            k <= wall_sets@.len(),
            tried.len() == k,
            width <= i32::MAX,
            height <= i32::MAX,
            2 + num_enemies + num_traps <= usize::MAX,
            (2 + num_enemies + num_traps) <= Set::new(|p: (usize, usize)| is_interior(width, height, p)).len(),
            player_goal_room(width, height, min_player_goal_distance),
        player_goal_room(width, height, min_player_goal_distance),
            forall|k: int, i: int|
                0 <= k < wall_sets@.len() && 0 <= i < wall_sets@[k]@.len() ==> is_interior(width, height, #[trigger] wall_sets@[k]@[i]),
            failed_layouts(width, height, wall_sets@, num_enemies, num_traps, min_player_goal_distance, tried),
        decreases wall_sets@.len() - k,
    {
        let walls = &wall_sets[k];
        assert(forall|i: int| 0 <= i < walls@.len() ==> is_interior(width, height, #[trigger] walls@[i]));
        let candidate = build_layout(width, height, walls, num_enemies, num_traps, min_player_goal_distance);
        proof {
            lemma_generated_searchable(candidate@, width, height, walls@, num_enemies, num_traps, min_player_goal_distance);
        }
        if is_layout_reachable(candidate.as_str()) {
            return Some(candidate);
        }
        proof {
            let t = tried.push(candidate@);
            assert forall|j: int| 0 <= j < t.len() implies generated_from(#[trigger] t[j], width, height, wall_sets@[j]@, num_enemies, num_traps, min_player_goal_distance)
                && !goal_reachable(t[j]) by {
                if j < tried.len() {
                    assert(t[j] == tried[j]);
                }
            }
            tried = t;
        }
        k = k + 1;
    }
    None
}

} // verus!
