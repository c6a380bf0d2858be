//! The world: entities as ids with component maps, and the rules of a tick.

use vstd::prelude::*;
use std::collections::HashMap;
use vstd::std_specs::iter::IteratorSpec;

use crate::grid_world::entity::{EntityKind, is_mover, is_terrain, kind_char};
use crate::grid_world::environment::Environment;
use crate::grid_world::layout::{parse_layout, parsed_world, valid_layout, layout_entities};
use crate::grid_world::action::{Action, random_action};
use crate::grid_world::vision;
use crate::grid_world::vision::{visible_set, vision_fits};

verus! {

broadcast use vstd::std_specs::hash::group_hash_axioms;

/// Settings that a world is built with.
#[derive(Clone, Copy, Debug)]
pub struct WorldConfig {
    pub max_tick: u32,
    pub player_perception_range: usize,
    pub enemy_perception_range: usize,
}

impl Default for WorldConfig {
    fn default() -> (c: Self)
        ensures
            c.max_tick == 100,
            c.player_perception_range == 5,
            c.enemy_perception_range == 5,
    {
        WorldConfig { max_tick: 100, player_perception_range: 5, enemy_perception_range: 5 }
    }
}

/// What one entity sees: its own map of the world.
pub struct EntityObservation {
    pub id: u32,
    pub position: (usize, usize),
    pub grid: Vec<Vec<i32>>,
}

/// What every perceiving entity sees, with the ids of the movers.
pub struct Observation {
    pub entities: Vec<EntityObservation>,
    pub player_id: u32,
    pub enemy_ids: Vec<u32>,
}

/// Why an episode ended.
#[derive(Debug, Clone, Copy, PartialEq, Eq, Structural)]
pub enum EndReason {
    GoalReached,
    Caught,
    Trapped,
    Timeout,
}

/// The outcome of a tick.
pub struct StepResult {
    pub done: bool,
    pub reason: Option<EndReason>,
}

/// The world state: entity ids with their components.
pub struct World {
    pub width: usize,
    pub height: usize,
    pub next_id: u32,
    pub positions: HashMap<u32, (usize, usize)>,
    pub kinds: HashMap<u32, EntityKind>,
    /// For each perceiving entity, the cells it has ever seen (no cell twice).
    pub discovered: HashMap<u32, Vec<(usize, usize)>>,
    pub perception_ranges: HashMap<u32, usize>,
    pub layout: String,
    pub done: bool,
    pub end_reason: Option<EndReason>,
    pub tick: u32,
    pub config: WorldConfig,
}

/// Some entity of the given kind stands at `pos`, given the position and
/// kind components.
pub open spec fn kind_in(
    positions: Map<u32, (usize, usize)>,
    kinds: Map<u32, EntityKind>,
    pos: (usize, usize),
    kind: EntityKind,
) -> bool {
    exists|id: u32|
        #![trigger positions[id], kinds[id]]
        positions.contains_key(id) && positions[id] == pos && kinds.contains_key(id) && kinds[id] == kind
}

/// Some entity of the given kind stands at `pos`.
pub open spec fn kind_at(w: World, pos: (usize, usize), kind: EntityKind) -> bool {
    kind_in(w.positions@, w.kinds@, pos, kind)
}

/// The cells that hold a wall, given the position and kind components.
pub open spec fn walls_in(positions: Map<u32, (usize, usize)>, kinds: Map<u32, EntityKind>) -> Set<(usize, usize)> {
    Set::new(|pos: (usize, usize)| kind_in(positions, kinds, pos, EntityKind::Wall))
}

/// The cells that hold a wall.
pub open spec fn walls(w: World) -> Set<(usize, usize)> {
    walls_in(w.positions@, w.kinds@)
}

/// Sequences listing a set of ids in increasing order.
pub open spec fn increasing(s: Seq<u32>) -> bool {
    forall|i: int, j: int| 0 <= i < j < s.len() ==> s[i] < s[j]
}

pub open spec fn lists_ids(s: Seq<u32>, d: Set<u32>) -> bool {
    &&& increasing(s)
    &&& forall|id: u32| s.contains(id) <==> d.contains(id)
}

/// The ids of the entities of a kind.
pub open spec fn ids_of_kind(w: World, kind: EntityKind) -> Set<u32> {
    Set::new(|id: u32| w.kinds@.contains_key(id) && w.kinds@[id] == kind)
}

/// Two worlds agree on everything but their entities and episode state.
pub open spec fn same_frame(a: World, b: World) -> bool {
    &&& a.width == b.width
    &&& a.height == b.height
    &&& a.layout@ == b.layout@
    &&& a.config == b.config
}

pub open spec fn action_delta(a: Action) -> (i32, i32) {
    match a {
        Action::Up => (-1i32, 0i32),
        Action::Down => (1i32, 0i32),
        Action::Left => (0i32, -1i32),
        Action::Right => (0i32, 1i32),
    }
}

pub open spec fn clamp_int(v: int, hi: int) -> int {
    if v < 0 {
        0
    } else if v > hi {
        hi
    } else {
        v
    }
}

/// A cell moved by a delta, each coordinate clamped to the grid.
pub open spec fn clamped(height: usize, width: usize, pos: (usize, usize), delta: (i32, i32)) -> (usize, usize) {
    (clamp_int(pos.0 + delta.0, height - 1) as usize, clamp_int(pos.1 + delta.1, width - 1) as usize)
}

/// The code of a kind in an observation grid: wall 1, player 2, enemy 3,
/// trap 4, goal 5 (0 is seen floor, -1 unseen).
pub open spec fn cell_code(kind: EntityKind) -> i32 {
    match kind {
        EntityKind::Wall => 1,
        EntityKind::Player => 2,
        EntityKind::Enemy => 3,
        EntityKind::Trap => 4,
        EntityKind::Goal => 5,
    }
}

/// The grid is small enough for the 32-bit arithmetic of movement and
/// sight: sides below 2^30 and squared diagonal within `i32`.
pub open spec fn sizes_fit(height: usize, width: usize) -> bool {
    &&& 1 <= height < 0x4000_0000
    &&& 1 <= width < 0x4000_0000
    &&& (height - 1) * (height - 1) + (width - 1) * (width - 1) <= i32::MAX
}

/// A perception range that the sight arithmetic can square.
pub open spec fn range_fits(r: usize) -> bool {
    r < 0x4000_0000 && r * r <= usize::MAX
}

/// Whether a grid of `height` rows and `width` columns is small enough for
/// the engine's arithmetic (see `sizes_fit`).
pub fn grid_fits(height: usize, width: usize) -> (b: bool)
    ensures
        b == sizes_fit(height, width),
{
    if height < 1 || height >= 0x4000_0000 || width < 1 || width >= 0x4000_0000 {
        return false;
    }
    let h: u64 = (height - 1) as u64;
    let w: u64 = (width - 1) as u64;
    assert(h * h < 0x1000_0000_0000_0000) by (nonlinear_arith)
        requires
            h < 0x4000_0000,
    ;
    assert(w * w < 0x1000_0000_0000_0000) by (nonlinear_arith)
        requires
            w < 0x4000_0000,
    ;
    h * h + w * w <= 0x7fff_ffff
}

/// Whether the engine can square a perception range (see `range_fits`).
pub fn perception_fits(r: usize) -> (b: bool)
    ensures
        b == range_fits(r),
{
    if r >= 0x4000_0000 {
        return false;
    }
    let x: u64 = r as u64;
    assert(x * x < 0x1000_0000_0000_0000) by (nonlinear_arith)
        requires
            x < 0x4000_0000,
    ;
    x * x <= usize::MAX as u64
}

pub open spec fn in_grid(w: World, p: (usize, usize)) -> bool {
    p.0 < w.height && p.1 < w.width
}

/// The world is well formed: every entity has a position inside the grid
/// and a kind, every mover perceives with a range that fits and keeps a
/// record of discovered cells, each cell recorded once and inside the grid.
pub open spec fn wf(w: World) -> bool {
    &&& sizes_fit(w.height, w.width)
    &&& w.positions@.dom() == w.kinds@.dom()
    &&& forall|id: u32| #[trigger] w.positions@.contains_key(id) ==> in_grid(w, w.positions@[id])
    &&& forall|id: u32|
        #[trigger] w.kinds@.contains_key(id) && is_mover(w.kinds@[id]) ==> w.perception_ranges@.contains_key(id)
            && w.discovered@.contains_key(id)
    &&& forall|id: u32| #[trigger] w.perception_ranges@.contains_key(id) ==> range_fits(w.perception_ranges@[id])
    &&& forall|id: u32|
        #[trigger] w.discovered@.contains_key(id) ==> w.discovered@[id]@.no_duplicates() && forall|k: int|
            0 <= k < w.discovered@[id]@.len() ==> in_grid(w, #[trigger] w.discovered@[id]@[k])
}

/// Where an entity at `pos` ends up when it takes `a`: the clamped target
/// cell, unless a wall stands there.
pub open spec fn moved_to(w: World, pos: (usize, usize), a: Action) -> (usize, usize) {
    let t = clamped(w.height, w.width, pos, action_delta(a));
    if walls(w).contains(t) {
        pos
    } else {
        t
    }
}

/// The positions once every entity with a resolved action has moved.
pub open spec fn moved_positions(w: World, r: Map<u32, Action>) -> Map<u32, (usize, usize)> {
    Map::new(
        |id: u32| w.positions@.contains_key(id),
        |id: u32|
            if r.contains_key(id) {
                moved_to(w, w.positions@[id], r[id])
            } else {
                w.positions@[id]
            },
    )
}

/// The entity stepped onto a trap.
pub open spec fn trapped(w: World, r: Map<u32, Action>, id: u32) -> bool {
    kind_in(moved_positions(w, r), w.kinds@, moved_positions(w, r)[id], EntityKind::Trap)
}

/// The movers other than the player that stepped onto a trap: they leave the world.
pub open spec fn dead(w: World, r: Map<u32, Action>, player: u32) -> Set<u32> {
    Set::new(|id: u32| r.contains_key(id) && id != player && trapped(w, r, id))
}

/// The outcome of a tick in which the movers of `r` act, with `player`
/// the player: everyone moves, trapped movers other than the player leave,
/// the player may be trapped, caught by an enemy on its cell, or reach a
/// goal; the first way the player dies ends the episode (a trap before
/// capture) and the goal counts only for a living player; and every
/// remaining mover adds what it now sees to its discovered cells.
pub open spec fn tick_resolves(pre: World, post: World, player: u32, r: Map<u32, Action>, res: StepResult) -> bool {
    let moved = moved_positions(pre, r);
    let gone = dead(pre, r, player);
    let ppos = moved[player];
    let was_trapped = trapped(pre, r, player);
    let caught = kind_in(post.positions@, post.kinds@, ppos, EntityKind::Enemy);
    let reached = kind_in(post.positions@, post.kinds@, ppos, EntityKind::Goal);
    &&& post.positions@ == moved.remove_keys(gone)
    &&& post.kinds@ == pre.kinds@.remove_keys(gone)
    &&& post.perception_ranges@ == pre.perception_ranges@.remove_keys(gone)
    &&& post.discovered@.dom() == pre.discovered@.dom().difference(gone)
    &&& forall|id: u32|
        #[trigger] post.discovered@.contains_key(id) ==> discovered_cells(post, id) == if r.contains_key(id)
            && pre.perception_ranges@.contains_key(id) {
            discovered_cells(pre, id) + visible_set(
                pre.height,
                pre.width,
                walls(pre),
                moved[id],
                pre.perception_ranges@[id],
            )
        } else {
            discovered_cells(pre, id)
        }
    &&& post.done == (was_trapped || caught || reached)
    &&& post.end_reason == if was_trapped {
        Some(EndReason::Trapped)
    } else if caught {
        Some(EndReason::Caught)
    } else if reached {
        Some(EndReason::GoalReached)
    } else {
        pre.end_reason
    }
    &&& res.done == post.done
    &&& res.reason == post.end_reason
    &&& same_frame(pre, post)
    &&& post.next_id == pre.next_id
}

/// Two component states agree on where the entities of `kind` stand.
proof fn lemma_kind_in_stable(
    p1: Map<u32, (usize, usize)>,
    k1: Map<u32, EntityKind>,
    p2: Map<u32, (usize, usize)>,
    k2: Map<u32, EntityKind>,
    kind: EntityKind,
)
    requires
        forall|id: u32|
            (k1.contains_key(id) && k1[id] == kind && p1.contains_key(id)) ==> (k2.contains_key(id) && k2[id]
                == kind && p2.contains_key(id) && p2[id] == p1[id]),
        forall|id: u32|
            (k2.contains_key(id) && k2[id] == kind && p2.contains_key(id)) ==> (k1.contains_key(id) && k1[id]
                == kind && p1.contains_key(id) && p1[id] == p2[id]),
    ensures
        forall|pos: (usize, usize)| kind_in(p1, k1, pos, kind) == kind_in(p2, k2, pos, kind),
{
    assert forall|pos: (usize, usize)| kind_in(p1, k1, pos, kind) == kind_in(p2, k2, pos, kind) by {
        if kind_in(p1, k1, pos, kind) {
            let id = choose|id: u32|
                #![trigger p1[id], k1[id]]
                p1.contains_key(id) && p1[id] == pos && k1.contains_key(id) && k1[id] == kind;
            assert(p2[id] == pos && k2[id] == kind);
        }
        if kind_in(p2, k2, pos, kind) {
            let id = choose|id: u32|
                #![trigger p2[id], k2[id]]
                p2.contains_key(id) && p2[id] == pos && k2.contains_key(id) && k2[id] == kind;
            assert(p1[id] == pos && k1[id] == kind);
        }
    }
}

proof fn lemma_walls_stable(
    p1: Map<u32, (usize, usize)>,
    k1: Map<u32, EntityKind>,
    p2: Map<u32, (usize, usize)>,
    k2: Map<u32, EntityKind>,
)
    requires
        forall|id: u32|
            (k1.contains_key(id) && k1[id] == EntityKind::Wall && p1.contains_key(id)) ==> (k2.contains_key(id)
                && k2[id] == EntityKind::Wall && p2.contains_key(id) && p2[id] == p1[id]),
        forall|id: u32|
            (k2.contains_key(id) && k2[id] == EntityKind::Wall && p2.contains_key(id)) ==> (k1.contains_key(id)
                && k1[id] == EntityKind::Wall && p1.contains_key(id) && p1[id] == p2[id]),
    ensures
        walls_in(p1, k1) == walls_in(p2, k2),
{
    lemma_kind_in_stable(p1, k1, p2, k2, EntityKind::Wall);
    assert(walls_in(p1, k1) =~= walls_in(p2, k2));
}

/// A well-formed world can compute what any cell of its grid sees.
proof fn lemma_vision_fits(w: World, pos: (usize, usize), r: usize)
    requires
        sizes_fit(w.height, w.width),
        in_grid(w, pos),
        range_fits(r),
    ensures
        vision_fits(w.height, w.width, pos, r),
{
    let h = w.height;
    let wd = w.width;
    let dr = vision::imax(pos.0 - vision::win_lo(pos.0, r), vision::win_hi(pos.0, r, h) - pos.0);
    let dc = vision::imax(pos.1 - vision::win_lo(pos.1, r), vision::win_hi(pos.1, r, wd) - pos.1);
    assert(0 <= dr <= h - 1);
    assert(0 <= dc <= wd - 1);
    assert(dr * dr <= (h - 1) * (h - 1)) by (nonlinear_arith)
        requires
            0 <= dr <= h - 1,
    ;
    assert(dc * dc <= (wd - 1) * (wd - 1)) by (nonlinear_arith)
        requires
            0 <= dc <= wd - 1,
    ;
}

/// `id` is the entity with the smallest id at `pos`.
pub open spec fn is_first_at(positions: Map<u32, (usize, usize)>, pos: (usize, usize), id: u32) -> bool {
    &&& positions.contains_key(id)
    &&& positions[id] == pos
    &&& forall|o: u32| #[trigger] positions.contains_key(o) && positions[o] == pos ==> id <= o
}

/// The entity shown at a cell: the one with the smallest id standing there.
pub open spec fn occupant(positions: Map<u32, (usize, usize)>, pos: (usize, usize)) -> Option<u32> {
    if exists|id: u32| is_first_at(positions, pos, id) {
        Some(choose|id: u32| is_first_at(positions, pos, id))
    } else {
        None
    }
}

/// `id` stands at `pos`, is a mover exactly when `movers` holds, and has
/// the smallest id of such entities there.
pub open spec fn is_first_of(
    positions: Map<u32, (usize, usize)>,
    kinds: Map<u32, EntityKind>,
    pos: (usize, usize),
    movers: bool,
    id: u32,
) -> bool {
    &&& positions.contains_key(id)
    &&& positions[id] == pos
    &&& kinds.contains_key(id)
    &&& is_mover(kinds[id]) == movers
    &&& forall|o: u32|
        #[trigger] positions.contains_key(o) && positions[o] == pos && kinds.contains_key(o) && is_mover(kinds[o])
            == movers ==> id <= o
}

/// The mover (`movers`) or terrain (`!movers`) with the smallest id at
/// `pos`, if any.
pub open spec fn occupant_of(
    positions: Map<u32, (usize, usize)>,
    kinds: Map<u32, EntityKind>,
    pos: (usize, usize),
    movers: bool,
) -> Option<u32> {
    if exists|id: u32| is_first_of(positions, kinds, pos, movers, id) {
        Some(choose|id: u32| is_first_of(positions, kinds, pos, movers, id))
    } else {
        None
    }
}

/// The mover (`movers`) or terrain (`!movers`) with the smallest id at
/// `pos`, if any.
pub fn first_of_kind(world: &World, ids: &Vec<u32>, pos: (usize, usize), movers: bool) -> (o: Option<u32>)
    requires
        lists_ids(ids@, world.positions@.dom()),
        forall|id: u32| #[trigger] world.positions@.contains_key(id) ==> world.kinds@.contains_key(id),
    ensures
        o == occupant_of(world.positions@, world.kinds@, pos, movers),
{
    let ghost ps = world.positions@;
    let ghost ks = world.kinds@;
    let mut i: usize = 0;
    while i < ids.len()
        invariant
            i <= ids.len(),
            ps == world.positions@,
            ks == world.kinds@,
            lists_ids(ids@, ps.dom()),
            forall|id: u32| #[trigger] ps.contains_key(id) ==> ks.contains_key(id),
            forall|k: int|
                0 <= k < i ==> !(ps[#[trigger] ids@[k]] == pos && is_mover(ks[ids@[k]]) == movers),
        decreases ids.len() - i,
    {
        let id = ids[i];
        assert(ids@.contains(id));
        let p = *world.positions.get(&id).unwrap();
        let kind = *world.kinds.get(&id).unwrap();
        let mover = kind == EntityKind::Player || kind == EntityKind::Enemy;
        if p.0 == pos.0 && p.1 == pos.1 && mover == movers {
            proof {
                assert forall|o: u32|
                    #[trigger] ps.contains_key(o) && ps[o] == pos && ks.contains_key(o) && is_mover(ks[o]) == movers implies id <= o by {
                    assert(ids@.contains(o));
                    let k = choose|k: int| 0 <= k < ids@.len() && ids@[k] == o;
                    if k < i {
                        assert(!(ps[ids@[k]] == pos && is_mover(ks[ids@[k]]) == movers));
                    } else if k > i {
                        assert(ids@[i as int] < ids@[k]);
                    }
                }
                assert(is_first_of(ps, ks, pos, movers, id));
                let c = choose|c: u32| is_first_of(ps, ks, pos, movers, c);
                assert(c <= id && id <= c);
            }
            return Some(id);
        }
        i = i + 1;
    }
    proof {
        assert forall|id: u32| !is_first_of(ps, ks, pos, movers, id) by {
            if is_first_of(ps, ks, pos, movers, id) {
                assert(ids@.contains(id));
                let k = choose|k: int| 0 <= k < ids@.len() && ids@[k] == id;
                assert(!(ps[ids@[k]] == pos && is_mover(ks[ids@[k]]) == movers));
            }
        }
    }
    None
}

/// The entity with the smallest id at `pos`, if any.
pub fn first_occupant(world: &World, ids: &Vec<u32>, pos: (usize, usize)) -> (o: Option<u32>)
    requires
        lists_ids(ids@, world.positions@.dom()),
    ensures
        o == occupant(world.positions@, pos),
        o is None <==> !(exists|id: u32| world.positions@.contains_key(id) && world.positions@[id] == pos),
{
    let mut i: usize = 0;
    while i < ids.len()
        invariant
            i <= ids.len(),
            lists_ids(ids@, world.positions@.dom()),
            forall|k: int| 0 <= k < i ==> world.positions@[#[trigger] ids@[k]] != pos,
        decreases ids.len() - i,
    {
        let id = ids[i];
        assert(ids@.contains(id));
        let p = *world.positions.get(&id).unwrap();
        if p.0 == pos.0 && p.1 == pos.1 {
            proof {
                assert forall|o: u32| #[trigger] world.positions@.contains_key(o) && world.positions@[o] == pos implies id <= o by {
                    assert(ids@.contains(o));
                    let k = choose|k: int| 0 <= k < ids@.len() && ids@[k] == o;
                    if k < i {
                        assert(world.positions@[ids@[k]] != pos);
                    } else if k > i {
                        assert(ids@[i as int] < ids@[k]);
                    }
                }
                assert(is_first_at(world.positions@, pos, id));
                let c = choose|c: u32| is_first_at(world.positions@, pos, c);
                assert(c <= id && id <= c);
            }
            return Some(id);
        }
        i = i + 1;
    }
    proof {
        assert forall|id: u32| !(world.positions@.contains_key(id) && world.positions@[id] == pos) by {
            if world.positions@.contains_key(id) {
                assert(ids@.contains(id));
                let k = choose|k: int| 0 <= k < ids@.len() && ids@[k] == id;
                assert(world.positions@[ids@[k]] != pos);
            }
        }
    }
    None
}

/// The keys of a map, in the order the map hands them out.
fn key_list<V>(m: &HashMap<u32, V>) -> (ids: Vec<u32>)
    ensures
        ids@.no_duplicates(),
        forall|id: u32| ids@.contains(id) <==> m@.contains_key(id),
{
    let ghost full = vstd::std_specs::hash::spec_keys_iter(m).remaining().unref();
    let mut ids: Vec<u32> = Vec::new();
    for k in it: m.keys()
        invariant
            it.seq().unref() == full,
            full.to_set() == m@.dom(),
            full.no_duplicates(),
            ids@ == full.take(it.index()),
    {
        ids.push(*k);
        assert(full.take(it.index() + 1) =~= ids@);
    }
    assert(full.take(full.len() as int) =~= full);
    assert forall|id: u32| ids@.contains(id) <==> m@.contains_key(id) by {
        if ids@.contains(id) {
            assert(full.to_set().contains(id));
        }
        if m@.contains_key(id) {
            assert(full.to_set().contains(id));
        }
    }
    ids
}

/// Whether an entity of `kind` stands at `pos`.
fn kind_present(world: &World, pos: (usize, usize), kind: EntityKind) -> (b: bool)
    ensures
        b == kind_at(*world, pos, kind),
{
    let ids = key_list(&world.positions);
    let mut i: usize = 0;
    while i < ids.len()
        invariant
            i <= ids.len(),
            forall|id: u32| ids@.contains(id) <==> world.positions@.contains_key(id),
            forall|k: int|
                0 <= k < i ==> !(world.positions@[#[trigger] ids@[k]] == pos && world.kinds@.contains_key(ids@[k])
                    && world.kinds@[ids@[k]] == kind),
        decreases ids.len() - i,
    {
        let id = ids[i];
        assert(ids@.contains(id));
        let p = *world.positions.get(&id).unwrap();
        if p.0 == pos.0 && p.1 == pos.1 {
            match world.kinds.get(&id) {
                Some(k) => {
                    if *k == kind {
                        assert(kind_at(*world, pos, kind));
                        return true;
                    }
                },
                None => {},
            }
        }
        i = i + 1;
    }
    assert(!kind_at(*world, pos, kind)) by {
        if kind_at(*world, pos, kind) {
            let id = choose|id: u32|
                #![trigger world.positions@[id], world.kinds@[id]]
                world.positions@.contains_key(id) && world.positions@[id] == pos
                    && world.kinds@.contains_key(id) && world.kinds@[id] == kind;
            assert(ids@.contains(id));
            let k = choose|k: int| 0 <= k < ids@.len() && ids@[k] == id;
            assert(world.positions@[ids@[k]] == pos);
        }
    }
    false
}

/// Whether no wall stands at `pos`.
pub fn is_walkable(world: &World, pos: (usize, usize)) -> (b: bool)
    ensures
        b == !walls(*world).contains(pos),
{
    !kind_present(world, pos, EntityKind::Wall)
}

/// Whether a goal stands where the player stands.
pub fn check_goal(world: &World, player_id: u32) -> (b: bool)
    requires
        world.positions@.contains_key(player_id),
    ensures
        b == kind_at(*world, world.positions@[player_id], EntityKind::Goal),
{
    let player_pos = *world.positions.get(&player_id).unwrap();
    kind_present(world, player_pos, EntityKind::Goal)
}

/// Whether an enemy stands where the player stands.
pub fn check_enemy_collision(world: &World, player_id: u32) -> (b: bool)
    requires
        world.positions@.contains_key(player_id),
    ensures
        b == kind_at(*world, world.positions@[player_id], EntityKind::Enemy),
{
    let player_pos = *world.positions.get(&player_id).unwrap();
    kind_present(world, player_pos, EntityKind::Enemy)
}

/// Whether a trap stands where the entity stands.
pub fn check_trap_collision(world: &World, entity_id: u32) -> (b: bool)
    requires
        world.positions@.contains_key(entity_id),
    ensures
        b == kind_at(*world, world.positions@[entity_id], EntityKind::Trap),
{
    let entity_pos = *world.positions.get(&entity_id).unwrap();
    kind_present(world, entity_pos, EntityKind::Trap)
}

/// Gives a new entity the next free id, at `pos`.
pub fn spawn_entity(world: &mut World, kind: EntityKind, pos: (usize, usize)) -> (id: u32)
    requires
        old(world).next_id < u32::MAX,
    ensures
        id == old(world).next_id,
        final(world).next_id == old(world).next_id + 1,
        final(world).positions@ == old(world).positions@.insert(id, pos),
        final(world).kinds@ == old(world).kinds@.insert(id, kind),
        final(world).discovered@ == old(world).discovered@,
        final(world).perception_ranges@ == old(world).perception_ranges@,
        same_frame(*old(world), *final(world)),
        final(world).tick == old(world).tick,
        final(world).done == old(world).done,
        final(world).end_reason == old(world).end_reason,
{
    let id = world.next_id;
    world.next_id = world.next_id + 1;
    world.positions.insert(id, pos);
    world.kinds.insert(id, kind);
    id
}

/// Removes every component of an entity.
pub fn despawn_entity(world: &mut World, id: u32)
    requires
        old(world).kinds@.contains_key(id),
        old(world).positions@.contains_key(id),
        old(world).discovered@.contains_key(id),
        old(world).perception_ranges@.contains_key(id),
    ensures
        final(world).kinds@ == old(world).kinds@.remove(id),
        final(world).positions@ == old(world).positions@.remove(id),
        final(world).discovered@ == old(world).discovered@.remove(id),
        final(world).perception_ranges@ == old(world).perception_ranges@.remove(id),
        final(world).next_id == old(world).next_id,
        same_frame(*old(world), *final(world)),
        final(world).tick == old(world).tick,
        final(world).done == old(world).done,
        final(world).end_reason == old(world).end_reason,
{
    world.kinds.remove(&id);
    world.positions.remove(&id);
    world.discovered.remove(&id);
    world.perception_ranges.remove(&id);
}

/// The ids of the entities of a kind, in increasing order.
pub fn get_entity_ids_by_kind(world: &World, kind: EntityKind) -> (ids: Vec<u32>)
    ensures
        lists_ids(ids@, ids_of_kind(*world, kind)),
{
    let all = sorted_ids(&world.kinds);
    let mut ids: Vec<u32> = Vec::new();
    let mut i: usize = 0;
    while i < all.len()
        invariant
            i <= all.len(),
            lists_ids(all@, world.kinds@.dom()),
            increasing(ids@),
            ids@.len() > 0 ==> exists|k: int| 0 <= k < i && all@[k] == ids@.last(),
            forall|id: u32| ids@.contains(id) <==> (exists|k: int| 0 <= k < i && all@[k] == id) && world.kinds@.contains_key(id) && world.kinds@[id] == kind,
        decreases all.len() - i,
    {
        let id = all[i];
        assert(all@.contains(id));
        let k = *world.kinds.get(&id).unwrap();
        let ghost before = ids@;
        if k == kind {
            ids.push(id);
            assert(increasing(ids@)) by {
                if before.len() > 0 {
                    let k0 = choose|k0: int| 0 <= k0 < i && all@[k0] == before.last();
                    assert(all@[k0] < all@[i as int]);
                    assert forall|a: int, b: int| 0 <= a < b < ids@.len() implies ids@[a] < ids@[b] by {
                        if b == ids@.len() - 1 && a < b {
                            assert(before[a] <= before.last());
                        }
                    }
                }
            }
        }
        assert forall|x: u32| ids@.contains(x) <==> (exists|k2: int| 0 <= k2 < i + 1 && all@[k2] == x) && world.kinds@.contains_key(x) && world.kinds@[x] == kind by {
            if ids@.contains(x) && x != id {
                let k3 = choose|k3: int| 0 <= k3 < ids@.len() && ids@[k3] == x;
                assert(before.contains(x)) by { assert(before[k3] == x); }
            }
            if before.contains(x) {
                let k3 = choose|k3: int| 0 <= k3 < before.len() && before[k3] == x;
                assert(ids@[k3] == x);
            }
            if x == id && k == kind {
                assert(ids@[ids@.len() - 1] == x);
            }
            if (exists|k2: int| 0 <= k2 < i + 1 && all@[k2] == x) && x != id {
                let k2 = choose|k2: int| 0 <= k2 < i + 1 && all@[k2] == x;
                assert(k2 < i);
            }
        }
        if k == kind {
            assert(exists|k4: int| 0 <= k4 < i + 1 && all@[k4] == ids@.last()) by {
                assert(all@[i as int] == ids@.last());
            }
        }
        i = i + 1;
    }
    assert forall|x: u32| ids@.contains(x) <==> ids_of_kind(*world, kind).contains(x) by {
        if world.kinds@.contains_key(x) {
            assert(all@.contains(x));
        }
    }
    ids
}

/// The unit move of an action, as (row, column) change.
fn action_to_delta(action: Action) -> (d: (i32, i32))
    ensures
        d == action_delta(action),
{
    match action {
        Action::Up => (-1, 0),
        Action::Down => (1, 0),
        Action::Left => (0, -1),
        Action::Right => (0, 1),
    }
}

/// `pos` moved by `delta`, each coordinate clamped into the grid.
pub fn clamp_move(world: &World, pos: (usize, usize), delta: (i32, i32)) -> (p: (usize, usize))
    requires
        1 <= world.height <= i32::MAX,
        1 <= world.width <= i32::MAX,
        pos.0 <= i32::MAX,
        pos.1 <= i32::MAX,
        i32::MIN <= pos.0 + delta.0 <= i32::MAX,
        i32::MIN <= pos.1 + delta.1 <= i32::MAX,
    ensures
        p == clamped(world.height, world.width, pos, delta),
{
    let r = pos.0 as i32 + delta.0;
    let hi_r = world.height as i32 - 1;
    let row = if r < 0 { 0 } else if r > hi_r { hi_r } else { r };
    let c = pos.1 as i32 + delta.1;
    let hi_c = world.width as i32 - 1;
    let col = if c < 0 { 0 } else if c > hi_c { hi_c } else { c };
    (row as usize, col as usize)
}

/// Whether a list of cells holds `c`.
pub(crate) fn holds_cell(v: &Vec<(usize, usize)>, c: (usize, usize)) -> (b: bool)
    ensures
        b == v@.contains(c),
{
    let mut i: usize = 0;
    while i < v.len()
        invariant
            i <= v.len(),
            forall|k: int| 0 <= k < i ==> v@[k] != c,
        decreases v.len() - i,
    {
        if v[i].0 == c.0 && v[i].1 == c.1 {
            return true;
        }
        i = i + 1;
    }
    false
}

/// The cells an entity has discovered, as a set (none if it has no record).
pub open spec fn discovered_cells(w: World, id: u32) -> Set<(usize, usize)> {
    if w.discovered@.contains_key(id) {
        w.discovered@[id]@.to_set()
    } else {
        Set::empty()
    }
}

/// Adds what the entity sees from `pos` to the cells it has discovered.
pub fn update_discovered(world: &mut World, id: u32, pos: (usize, usize), perception_range: usize)
    requires
        vision_fits(old(world).height, old(world).width, pos, perception_range),
    ensures
        final(world).discovered@.dom() == old(world).discovered@.dom().insert(id),
        forall|other: u32| other != id && old(world).discovered@.contains_key(other)
            ==> final(world).discovered@[other] == old(world).discovered@[other],
        discovered_cells(*final(world), id) == discovered_cells(*old(world), id) + visible_set(old(world).height, old(world).width, walls(*old(world)), pos, perception_range),
        (old(world).discovered@.contains_key(id) ==> old(world).discovered@[id]@.no_duplicates())
            ==> final(world).discovered@[id]@.no_duplicates(),
        (forall|c: (usize, usize)| #[trigger] discovered_cells(*old(world), id).contains(c) ==> c.0 < old(world).height && c.1 < old(world).width)
            ==> (forall|k: int| 0 <= k < final(world).discovered@[id]@.len() ==> (#[trigger] final(world).discovered@[id]@[k]).0 < old(world).height
                && final(world).discovered@[id]@[k].1 < old(world).width),
        final(world).positions@ == old(world).positions@,
        final(world).kinds@ == old(world).kinds@,
        final(world).perception_ranges@ == old(world).perception_ranges@,
        final(world).next_id == old(world).next_id,
        same_frame(*old(world), *final(world)),
        final(world).tick == old(world).tick,
        final(world).done == old(world).done,
        final(world).end_reason == old(world).end_reason,
{
    let visible = vision::get_visible_cells(world, pos, perception_range);
    let ghost vs = visible_set(world.height, world.width, walls(*world), pos, perception_range);
    let ghost old_cells = discovered_cells(*world, id);
    let ghost old_nodup = world.discovered@.contains_key(id) ==> world.discovered@[id]@.no_duplicates();
    let ghost old_in = forall|c: (usize, usize)| #[trigger] old_cells.contains(c) ==> c.0 < world.height && c.1 < world.width;
    let mut cells = match world.discovered.remove(&id) {
        Some(v) => v,
        None => Vec::new(),
    };
    assert(cells@.to_set() == old_cells);
    let mut i: usize = 0;
    proof {
        if old_in {
            assert forall|k: int| 0 <= k < cells@.len() implies (#[trigger] cells@[k]).0 < world.height && cells@[k].1 < world.width by {
                assert(cells@.to_set().contains(cells@[k]));
            }
        }
    }
    assert forall|c: (usize, usize)| cells@.contains(c) <==> (old_cells.contains(c) || visible@.take(0).contains(c)) by {
        if cells@.contains(c) {
            assert(cells@.to_set().contains(c));
        }
    }
    while i < visible.len()
        invariant
            i <= visible.len(),
            forall|p: (usize, usize)| visible@.contains(p) <==> vs.contains(p),
            forall|c: (usize, usize)| cells@.contains(c) <==> (old_cells.contains(c) || visible@.take(i as int).contains(c)),
            old_nodup ==> cells@.no_duplicates(),
            vs == visible_set(world.height, world.width, walls(*world), pos, perception_range),
            old_in ==> forall|k: int| 0 <= k < cells@.len() ==> (#[trigger] cells@[k]).0 < world.height && cells@[k].1 < world.width,
            old_in == forall|c: (usize, usize)| #[trigger] old_cells.contains(c) ==> c.0 < world.height && c.1 < world.width,
        decreases visible.len() - i,
    {
        let c = visible[i];
        assert(visible@.contains(c));
        let ghost before = cells@;
        let present = holds_cell(&cells, c);
        if !present {
            cells.push(c);
            proof {
                if old_in {
                    assert forall|k: int| 0 <= k < cells@.len() implies (#[trigger] cells@[k]).0 < world.height && cells@[k].1 < world.width by {
                        if k < before.len() {
                            assert(cells@[k] == before[k]);
                        } else {
                            assert(vs.contains(c));
                        }
                    }
                }
            }
        }
        let ghost i1: int = i + 1;
        proof {
            broadcast use vstd::seq_lib::group_seq_properties;
            assert(cells@ == before || cells@ == before.push(c));
            assert forall|x: (usize, usize)| #[trigger] cells@.contains(x) <==> (before.contains(x) || x == c) by {
                if !present {
                    if cells@.contains(x) && x != c {
                        let k = choose|k: int| 0 <= k < cells@.len() && cells@[k] == x;
                        assert(before[k] == x);
                    }
                    if before.contains(x) {
                        let k = choose|k: int| 0 <= k < before.len() && before[k] == x;
                        assert(cells@[k] == x);
                    }
                    if x == c {
                        assert(cells@[cells@.len() - 1] == x);
                    }
                }
            }
            let t0 = visible@.take(i as int);
            let t1 = visible@.take(i1);
            assert(t1 == t0.push(c)) by {
                assert(t1 =~= t0.push(c));
            }
            assert forall|x: (usize, usize)| #[trigger] cells@.contains(x) <==> (old_cells.contains(x) || t1.contains(x)) by {
                assert(before.contains(x) <==> (old_cells.contains(x) || t0.contains(x)));
                assert(t1.contains(x) <==> (t0.contains(x) || x == c));
            }
        }
        i = i + 1;
        assert forall|x: (usize, usize)| cells@.contains(x) <==> (old_cells.contains(x) || visible@.take(i as int).contains(x)) by {
            assert(cells@.contains(x) <==> (old_cells.contains(x) || visible@.take(i1).contains(x)));
        }
    }
    assert(visible@.take(visible@.len() as int) =~= visible@);
    assert(cells@.to_set() =~= old_cells + vs) by {
        assert forall|x: (usize, usize)| cells@.to_set().contains(x) <==> (old_cells + vs).contains(x) by {
            assert(cells@.contains(x) <==> (old_cells.contains(x) || visible@.take(visible@.len() as int).contains(x)));
            assert(visible@.contains(x) <==> vs.contains(x));
        }
    }
    world.discovered.insert(id, cells);
    proof {
        assert(discovered_cells(*world, id) == old_cells + vs);
    }
}

/// The cell code of each kind in an observation grid.
fn kind_to_cell(kind: EntityKind) -> (c: i32)
    ensures
        c == cell_code(kind),
{
    match kind {
        EntityKind::Wall => 1,
        EntityKind::Player => 2,
        EntityKind::Enemy => 3,
        EntityKind::Trap => 4,
        EntityKind::Goal => 5,
    }
}

/// The keys of a map in increasing order.
pub fn sorted_ids<V>(m: &HashMap<u32, V>) -> (ids: Vec<u32>)
    ensures
        lists_ids(ids@, m@.dom()),
{
    let keys = key_list(m);
    let mut out: Vec<u32> = Vec::new();
    let mut i: usize = 0;
    while i < keys.len()
        invariant
            i <= keys.len(),
            keys@.no_duplicates(),
            increasing(out@),
            forall|id: u32| out@.contains(id) <==> keys@.take(i as int).contains(id),
        decreases keys.len() - i,
    {
        let x = keys[i];
        assert(!out@.contains(x)) by {
            if out@.contains(x) {
                let k = choose|k: int| 0 <= k < i && keys@.take(i as int)[k] == x;
                assert(keys@[k] == keys@[i as int]);
            }
        }
        let mut p: usize = 0;
        while p < out.len() && out[p] < x
            invariant
                p <= out.len(),
                forall|q: int| 0 <= q < p ==> out@[q] < x,
            decreases out.len() - p,
        {
            p = p + 1;
        }
        let ghost before = out@;
        out.insert(p, x);
        assert(out@ == before.take(p as int).push(x) + before.skip(p as int)) by {
            assert(out@ =~= before.take(p as int).push(x) + before.skip(p as int));
        }
        assert(p < before.len() ==> before[p as int] > x) by {
            if p < before.len() {
                assert(before[p as int] != x);
            }
        }
        assert(increasing(out@)) by {
            assert forall|a: int, b: int| 0 <= a < b < out@.len() implies out@[a] < out@[b] by {
                if b < p {
                } else if b == p {
                } else if a < p {
                    assert(out@[b] == before[b - 1]);
                    assert(before[p as int] > x);
                    if a < p {
                        assert(before[a] < x);
                    }
                } else if a == p {
                    assert(out@[b] == before[b - 1]);
                    assert(before[p as int] <= before[b - 1]);
                } else {
                    assert(out@[a] == before[a - 1]);
                    assert(out@[b] == before[b - 1]);
                }
            }
        }
        assert forall|id: u32| out@.contains(id) <==> keys@.take(i + 1).contains(id) by {
            assert(keys@.take(i + 1) =~= keys@.take(i as int).push(x));
            if out@.contains(id) {
                let k = choose|k: int| 0 <= k < out@.len() && out@[k] == id;
                if k < p {
                    assert(before.contains(id));
                } else if k > p {
                    assert(before[k - 1] == id);
                    assert(before.contains(id));
                }
            }
            if before.contains(id) {
                let k = choose|k: int| 0 <= k < before.len() && before[k] == id;
                if k < p {
                    assert(out@[k] == id);
                } else {
                    assert(out@[k + 1] == id);
                }
            }
            if id == x {
                assert(out@[p as int] == x);
            }
            let t1 = keys@.take(i + 1);
            let t0 = keys@.take(i as int);
            if t1.contains(id) {
                let k = choose|k: int| 0 <= k < t1.len() && t1[k] == id;
                if k < i {
                    assert(t0[k] == id);
                }
            }
            if t0.contains(id) {
                let k = choose|k: int| 0 <= k < t0.len() && t0[k] == id;
                assert(t1[k] == id);
            }
            if id == x {
                assert(t1[i as int] == x);
            }
        }
        i = i + 1;
    }
    assert(keys@.take(keys.len() as int) =~= keys@);
    out
}

} // verus!

verus! {

/// The movers of `r` other than `player` that stand on a trap.
pub open spec fn trap_victims(w: World, r: Map<u32, Action>, player: u32) -> Set<u32> {
    Set::new(
        |id: u32|
            r.contains_key(id) && id != player && kind_in(w.positions@, w.kinds@, w.positions@[id], EntityKind::Trap),
    )
}

pub open spec fn victims_upto(w: World, ids: Seq<u32>, player: u32) -> Set<u32> {
    Set::new(
        |id: u32|
            ids.contains(id) && id != player && kind_in(w.positions@, w.kinds@, w.positions@[id], EntityKind::Trap),
    )
}

impl World {
    /// Moves every entity with a resolved action.
    fn move_movers(&mut self, ids: &Vec<u32>, resolved: &HashMap<u32, Action>)
        requires
            wf(*old(self)),
            lists_ids(ids@, resolved@.dom()),
            forall|id: u32|
                #[trigger] resolved@.contains_key(id) ==> old(self).kinds@.contains_key(id) && is_mover(
                    old(self).kinds@[id],
                ),
        ensures
            final(self).positions@ == moved_positions(*old(self), resolved@),
            final(self).kinds@ == old(self).kinds@,
            final(self).discovered@ == old(self).discovered@,
            final(self).perception_ranges@ == old(self).perception_ranges@,
            final(self).next_id == old(self).next_id,
            same_frame(*old(self), *final(self)),
            final(self).tick == old(self).tick,
            final(self).done == old(self).done,
            final(self).end_reason == old(self).end_reason,
            walls(*final(self)) == walls(*old(self)),
            wf(*final(self)),
    {
        let ghost pre = *self;
        let ghost r = resolved@;
        let mut k: usize = 0;
        while k < ids.len()
            invariant
                k <= ids.len(),
                lists_ids(ids@, r.dom()),
                r == resolved@,
                forall|id: u32| #[trigger] r.contains_key(id) ==> pre.kinds@.contains_key(id) && is_mover(pre.kinds@[id]),
                wf(pre),
                wf(*self),
                self.kinds@ == pre.kinds@,
                self.discovered@ == pre.discovered@,
                self.perception_ranges@ == pre.perception_ranges@,
                self.next_id == pre.next_id,
                same_frame(pre, *self),
                self.tick == pre.tick,
                self.done == pre.done,
                self.end_reason == pre.end_reason,
                walls(*self) == walls(pre),
                self.positions@.dom() == pre.positions@.dom(),
                forall|id: u32|
                    #[trigger] pre.positions@.contains_key(id) ==> self.positions@[id] == if ids@.take(k as int).contains(id) {
                        moved_to(pre, pre.positions@[id], r[id])
                    } else {
                        pre.positions@[id]
                    },
            decreases ids.len() - k,
        {
            let id = ids[k];
            assert(ids@.contains(id));
            assert(r.contains_key(id));
            assert(pre.positions@.contains_key(id));
            assert(!ids@.take(k as int).contains(id)) by {
                if ids@.take(k as int).contains(id) {
                    let j = choose|j: int| 0 <= j < k && ids@.take(k as int)[j] == id;
                    assert(ids@[j] < ids@[k as int]);
                }
            }
            let a = *resolved.get(&id).unwrap();
            let cur = *self.positions.get(&id).unwrap();
            assert(cur == pre.positions@[id]);
            let delta = action_to_delta(a);
            let target = clamp_move(self, cur, delta);
            let open = is_walkable(self, target);
            let next = if open { target } else { cur };
            assert(next == moved_to(pre, pre.positions@[id], r[id]));
            let ghost before = self.positions@;
            self.positions.insert(id, next);
            proof {
                lemma_walls_stable(before, pre.kinds@, self.positions@, pre.kinds@);
                assert forall|x: u32| #[trigger] pre.positions@.contains_key(x) implies self.positions@[x] == if ids@.take(k + 1).contains(x) {
                    moved_to(pre, pre.positions@[x], r[x])
                } else {
                    pre.positions@[x]
                } by {
                    let t0 = ids@.take(k as int);
                    let t1 = ids@.take(k + 1);
                    assert(t1 =~= t0.push(id));
                    if x != id {
                        assert(t1.contains(x) == t0.contains(x)) by {
                            if t1.contains(x) {
                                let j = choose|j: int| 0 <= j < t1.len() && t1[j] == x;
                                assert(t0[j] == x);
                            }
                            if t0.contains(x) {
                                let j = choose|j: int| 0 <= j < t0.len() && t0[j] == x;
                                assert(t1[j] == x);
                            }
                        }
                    } else {
                        assert(t1[k as int] == id);
                    }
                }
                assert(self.positions@.dom() =~= pre.positions@.dom());
                assert forall|x: u32| #[trigger] self.positions@.contains_key(x) implies in_grid(*self, self.positions@[x]) by {
                    if x != id {
                        assert(before.contains_key(x));
                    }
                }
            }
            k = k + 1;
        }
        proof {
            assert(ids@.take(ids@.len() as int) =~= ids@);
            assert(self.positions@ =~= moved_positions(pre, r));
        }
    }

    /// Removes the movers other than the player that stand on a trap, and
    /// ends the episode if the player does.
    fn resolve_traps(&mut self, ids: &Vec<u32>, resolved: &HashMap<u32, Action>, player_id: u32)
        requires
            wf(*old(self)),
            lists_ids(ids@, resolved@.dom()),
            resolved@.contains_key(player_id),
            forall|id: u32|
                #[trigger] resolved@.contains_key(id) ==> old(self).kinds@.contains_key(id) && is_mover(
                    old(self).kinds@[id],
                ),
        ensures
            ({
                let gone = trap_victims(*old(self), resolved@, player_id);
                let hit = kind_in(
                    old(self).positions@,
                    old(self).kinds@,
                    old(self).positions@[player_id],
                    EntityKind::Trap,
                );
                &&& final(self).positions@ == old(self).positions@.remove_keys(gone)
                &&& final(self).kinds@ == old(self).kinds@.remove_keys(gone)
                &&& final(self).perception_ranges@ == old(self).perception_ranges@.remove_keys(gone)
                &&& final(self).discovered@ == old(self).discovered@.remove_keys(gone)
                &&& final(self).done == (old(self).done || hit)
                &&& final(self).end_reason == if hit {
                    Some(EndReason::Trapped)
                } else {
                    old(self).end_reason
                }
            }),
            final(self).next_id == old(self).next_id,
            same_frame(*old(self), *final(self)),
            final(self).tick == old(self).tick,
            walls(*final(self)) == walls(*old(self)),
            wf(*final(self)),
    {
        let ghost pre = *self;
        let ghost r = resolved@;
        let ghost hit = kind_in(pre.positions@, pre.kinds@, pre.positions@[player_id], EntityKind::Trap);
        let mut k: usize = 0;
        assert(victims_upto(pre, ids@.take(0), player_id) =~= Set::empty());
        assert(pre.positions@.remove_keys(Set::empty()) =~= pre.positions@);
        assert(pre.kinds@.remove_keys(Set::empty()) =~= pre.kinds@);
        assert(pre.perception_ranges@.remove_keys(Set::empty()) =~= pre.perception_ranges@);
        assert(pre.discovered@.remove_keys(Set::empty()) =~= pre.discovered@);
        while k < ids.len()
            invariant
                k <= ids.len(),
                lists_ids(ids@, r.dom()),
                r == resolved@,
                r.contains_key(player_id),
                forall|id: u32| #[trigger] r.contains_key(id) ==> pre.kinds@.contains_key(id) && is_mover(pre.kinds@[id]),
                wf(pre),
                wf(*self),
                hit == kind_in(pre.positions@, pre.kinds@, pre.positions@[player_id], EntityKind::Trap),
                self.positions@ == pre.positions@.remove_keys(victims_upto(pre, ids@.take(k as int), player_id)),
                self.kinds@ == pre.kinds@.remove_keys(victims_upto(pre, ids@.take(k as int), player_id)),
                self.perception_ranges@ == pre.perception_ranges@.remove_keys(victims_upto(pre, ids@.take(k as int), player_id)),
                self.discovered@ == pre.discovered@.remove_keys(victims_upto(pre, ids@.take(k as int), player_id)),
                self.done == (pre.done || (ids@.take(k as int).contains(player_id) && hit)),
                self.end_reason == if ids@.take(k as int).contains(player_id) && hit {
                    Some(EndReason::Trapped)
                } else {
                    pre.end_reason
                },
                self.next_id == pre.next_id,
                same_frame(pre, *self),
                self.tick == pre.tick,
                walls(*self) == walls(pre),
            decreases ids.len() - k,
        {
            let id = ids[k];
            let ghost t0 = ids@.take(k as int);
            let ghost t1 = ids@.take(k + 1);
            let ghost v0 = victims_upto(pre, t0, player_id);
            assert(t1 =~= t0.push(id));
            assert(ids@.contains(id));
            assert(r.contains_key(id));
            assert(!t0.contains(id)) by {
                if t0.contains(id) {
                    let j = choose|j: int| 0 <= j < t0.len() && t0[j] == id;
                    assert(ids@[j] < ids@[k as int]);
                }
            }
            assert(!v0.contains(id));
            assert(self.positions@.contains_key(id));
            proof {
                assert forall|x: u32| #[trigger] pre.kinds@.contains_key(x) && pre.kinds@[x] == EntityKind::Trap implies !v0.contains(x) by {
                    if v0.contains(x) {
                        assert(t0.contains(x));
                        let j = choose|j: int| 0 <= j < t0.len() && t0[j] == x;
                        assert(ids@[j] == x);
                        assert(ids@.contains(x));
                        assert(r.contains_key(x));
                    }
                }
                lemma_kind_in_stable(self.positions@, self.kinds@, pre.positions@, pre.kinds@, EntityKind::Trap);
            }
            let on_trap = check_trap_collision(self, id);
            assert(on_trap == kind_in(pre.positions@, pre.kinds@, pre.positions@[id], EntityKind::Trap));
            let ghost before = *self;
            if on_trap {
                if id == player_id {
                    self.done = true;
                    self.end_reason = Some(EndReason::Trapped);
                } else {
                    despawn_entity(self, id);
                }
            }
            proof {
                let v1 = victims_upto(pre, t1, player_id);
                assert forall|x: u32| #[trigger] t1.contains(x) <==> (t0.contains(x) || x == id) by {
                    if t1.contains(x) {
                        let j = choose|j: int| 0 <= j < t1.len() && t1[j] == x;
                        if j < k {
                            assert(t0[j] == x);
                        }
                    }
                    if t0.contains(x) {
                        let j = choose|j: int| 0 <= j < t0.len() && t0[j] == x;
                        assert(t1[j] == x);
                    }
                    if x == id {
                        assert(t1[k as int] == x);
                    }
                }
                if on_trap && id != player_id {
                    assert(v1 =~= v0.insert(id));
                    assert(self.positions@ =~= pre.positions@.remove_keys(v1));
                    assert(self.kinds@ =~= pre.kinds@.remove_keys(v1));
                    assert(self.perception_ranges@ =~= pre.perception_ranges@.remove_keys(v1));
                    assert(self.discovered@ =~= pre.discovered@.remove_keys(v1));
                    lemma_walls_stable(before.positions@, before.kinds@, self.positions@, self.kinds@);
                } else {
                    assert(v1 =~= v0);
                }
                if id == player_id {
                    assert(t1.contains(player_id));
                }
                assert(t1.contains(player_id) == (t0.contains(player_id) || id == player_id));
            }
            k = k + 1;
        }
        proof {
            assert(ids@.take(ids@.len() as int) =~= ids@);
            assert(victims_upto(pre, ids@, player_id) =~= trap_victims(pre, r, player_id));
            assert(ids@.contains(player_id));
        }
    }

    /// Every mover of the tick that still perceives adds what it sees to
    /// its discovered cells.
    fn discover_all(&mut self, ids: &Vec<u32>, resolved: &HashMap<u32, Action>)
        requires
            wf(*old(self)),
            lists_ids(ids@, resolved@.dom()),
            forall|id: u32|
                resolved@.contains_key(id) && #[trigger] old(self).perception_ranges@.contains_key(id)
                    ==> old(self).positions@.contains_key(id),
        ensures
            final(self).positions@ == old(self).positions@,
            final(self).kinds@ == old(self).kinds@,
            final(self).perception_ranges@ == old(self).perception_ranges@,
            final(self).discovered@.dom() == old(self).discovered@.dom() + Set::new(
                |id: u32| resolved@.contains_key(id) && old(self).perception_ranges@.contains_key(id),
            ),
            forall|id: u32|
                #[trigger] final(self).discovered@.contains_key(id) ==> discovered_cells(*final(self), id) == if resolved@.contains_key(id)
                    && old(self).perception_ranges@.contains_key(id) {
                    discovered_cells(*old(self), id) + visible_set(
                        old(self).height,
                        old(self).width,
                        walls(*old(self)),
                        old(self).positions@[id],
                        old(self).perception_ranges@[id],
                    )
                } else {
                    discovered_cells(*old(self), id)
                },
            final(self).next_id == old(self).next_id,
            same_frame(*old(self), *final(self)),
            final(self).tick == old(self).tick,
            final(self).done == old(self).done,
            final(self).end_reason == old(self).end_reason,
            wf(*final(self)),
    {
        let ghost pre = *self;
        let ghost r = resolved@;
        let mut k: usize = 0;
        while k < ids.len()
            invariant
                k <= ids.len(),
                lists_ids(ids@, r.dom()),
                r == resolved@,
                forall|id: u32|
                    r.contains_key(id) && #[trigger] pre.perception_ranges@.contains_key(id) ==> pre.positions@.contains_key(id),
                wf(pre),
                wf(*self),
                self.positions@ == pre.positions@,
                self.kinds@ == pre.kinds@,
                self.perception_ranges@ == pre.perception_ranges@,
                self.next_id == pre.next_id,
                same_frame(pre, *self),
                self.tick == pre.tick,
                self.done == pre.done,
                self.end_reason == pre.end_reason,
                self.discovered@.dom() == pre.discovered@.dom() + Set::new(
                    |id: u32| ids@.take(k as int).contains(id) && pre.perception_ranges@.contains_key(id),
                ),
                forall|id: u32|
                    #[trigger] self.discovered@.contains_key(id) ==> discovered_cells(*self, id) == if ids@.take(k as int).contains(id)
                        && pre.perception_ranges@.contains_key(id) {
                        discovered_cells(pre, id) + visible_set(
                            pre.height,
                            pre.width,
                            walls(pre),
                            pre.positions@[id],
                            pre.perception_ranges@[id],
                        )
                    } else {
                        discovered_cells(pre, id)
                    },
            decreases ids.len() - k,
        {
            let id = ids[k];
            let ghost t0 = ids@.take(k as int);
            let ghost t1 = ids@.take(k + 1);
            assert(t1 =~= t0.push(id));
            assert(!t0.contains(id)) by {
                if t0.contains(id) {
                    let j = choose|j: int| 0 <= j < t0.len() && t0[j] == id;
                    assert(ids@[j] < ids@[k as int]);
                }
            }
            assert forall|x: u32| #[trigger] t1.contains(x) <==> (t0.contains(x) || x == id) by {
                if t1.contains(x) {
                    let j = choose|j: int| 0 <= j < t1.len() && t1[j] == x;
                    if j < k {
                        assert(t0[j] == x);
                    }
                }
                if t0.contains(x) {
                    let j = choose|j: int| 0 <= j < t0.len() && t0[j] == x;
                    assert(t1[j] == x);
                }
                if x == id {
                    assert(t1[k as int] == x);
                }
            }
            let ghost before = *self;
            match self.perception_ranges.get(&id) {
                Some(range) => {
                    let range = *range;
                    assert(ids@.contains(id));
                    {
                        let pos = *self.positions.get(&id).unwrap();
                        proof {
                            lemma_vision_fits(*self, pos, range);
                        }
                        update_discovered(self, id, pos, range);
                        proof {
                            assert(walls(before) == walls(pre));
                            assert(discovered_cells(before, id) == discovered_cells(pre, id));
                            assert(self.discovered@.dom() =~= pre.discovered@.dom() + Set::new(
                                |x: u32| t1.contains(x) && pre.perception_ranges@.contains_key(x),
                            ));
                            assert forall|x: u32| #[trigger] self.discovered@.contains_key(x) implies discovered_cells(*self, x) == if t1.contains(x)
                                && pre.perception_ranges@.contains_key(x) {
                                discovered_cells(pre, x) + visible_set(
                                    pre.height,
                                    pre.width,
                                    walls(pre),
                                    pre.positions@[x],
                                    pre.perception_ranges@[x],
                                )
                            } else {
                                discovered_cells(pre, x)
                            } by {
                                if x != id {
                                    assert(before.discovered@.contains_key(x));
                                    assert(discovered_cells(*self, x) == discovered_cells(before, x));
                                }
                            }
                            assert forall|x: u32| #[trigger] self.discovered@.contains_key(x) implies self.discovered@[x]@.no_duplicates() && forall|j: int|
                                0 <= j < self.discovered@[x]@.len() ==> in_grid(*self, #[trigger] self.discovered@[x]@[j]) by {
                                if x != id {
                                    assert(before.discovered@.contains_key(x));
                                } else {
                                    assert(forall|c: (usize, usize)| #[trigger] discovered_cells(before, id).contains(c) ==> c.0 < before.height && c.1 < before.width) by {
                                        assert forall|c: (usize, usize)| #[trigger] discovered_cells(before, id).contains(c) implies c.0 < before.height && c.1 < before.width by {
                                            if before.discovered@.contains_key(id) {
                                                let j = choose|j: int| 0 <= j < before.discovered@[id]@.len() && before.discovered@[id]@[j] == c;
                                                assert(in_grid(before, before.discovered@[id]@[j]));
                                            }
                                        }
                                    }
                                }
                            }
                        }
                    }
                },
                None => {
                    proof {
                        assert(self.discovered@.dom() =~= pre.discovered@.dom() + Set::new(
                            |x: u32| t1.contains(x) && pre.perception_ranges@.contains_key(x),
                        ));
                    }
                },
            }
            k = k + 1;
        }
        proof {
            assert(ids@.take(ids@.len() as int) =~= ids@);
            assert(self.discovered@.dom() =~= pre.discovered@.dom() + Set::new(
                |id: u32| r.contains_key(id) && pre.perception_ranges@.contains_key(id),
            ));
        }
    }

    /// Plays a tick in which each entity of `resolved` takes its action,
    /// `player_id` being the player (see `tick_resolves`).
    pub fn resolve_tick(&mut self, player_id: u32, resolved: &HashMap<u32, Action>) -> (res: StepResult)
        requires
            wf(*old(self)),
            !old(self).done,
            old(self).kinds@.contains_key(player_id),
            old(self).kinds@[player_id] == EntityKind::Player,
            resolved@.contains_key(player_id),
            forall|id: u32|
                #[trigger] resolved@.contains_key(id) ==> old(self).kinds@.contains_key(id) && is_mover(
                    old(self).kinds@[id],
                ),
        ensures
            tick_resolves(*old(self), *final(self), player_id, resolved@, res),
            final(self).tick == old(self).tick,
            wf(*final(self)),
    {
        let ghost pre = *self;
        let ghost r = resolved@;
        let ids = sorted_ids(resolved);
        self.move_movers(&ids, resolved);
        let ghost s1 = *self;
        self.resolve_traps(&ids, resolved, player_id);
        let ghost s2 = *self;
        proof {
            assert(trap_victims(s1, r, player_id) =~= dead(pre, r, player_id));
            assert(!dead(pre, r, player_id).contains(player_id));
            assert(self.positions@.contains_key(player_id));
        }
        if !self.done {
            let caught = check_enemy_collision(self, player_id);
            if caught {
                self.done = true;
                self.end_reason = Some(EndReason::Caught);
            } else {
                let reached = check_goal(self, player_id);
                if reached {
                    self.done = true;
                    self.end_reason = Some(EndReason::GoalReached);
                }
            }
        }
        let ghost s3 = *self;
        proof {
            assert forall|id: u32|
                r.contains_key(id) && #[trigger] self.perception_ranges@.contains_key(id) implies self.positions@.contains_key(id) by {
                assert(pre.kinds@.contains_key(id));
                assert(pre.positions@.contains_key(id));
            }
        }
        self.discover_all(&ids, resolved);
        proof {
            let gone = dead(pre, r, player_id);
            assert(self.discovered@.dom() =~= pre.discovered@.dom().difference(gone)) by {
                assert forall|id: u32| r.contains_key(id) && s3.perception_ranges@.contains_key(id) implies pre.discovered@.contains_key(id) && !gone.contains(id) by {
                    assert(pre.kinds@.contains_key(id));
                }
            }
            assert forall|id: u32| #[trigger] self.discovered@.contains_key(id) implies discovered_cells(*self, id) == if r.contains_key(id)
                && pre.perception_ranges@.contains_key(id) {
                discovered_cells(pre, id) + visible_set(
                    pre.height,
                    pre.width,
                    walls(pre),
                    moved_positions(pre, r)[id],
                    pre.perception_ranges@[id],
                )
            } else {
                discovered_cells(pre, id)
            } by {
                assert(!gone.contains(id));
                assert(discovered_cells(s3, id) == discovered_cells(pre, id));
                assert(s3.perception_ranges@.contains_key(id) == pre.perception_ranges@.contains_key(id));
                if r.contains_key(id) && pre.perception_ranges@.contains_key(id) {
                    assert(s3.positions@[id] == moved_positions(pre, r)[id]);
                }
            }
        }
        StepResult { done: self.done, reason: self.end_reason }
    }
}

} // verus!

verus! {

/// `p` is the player with the smallest id.
pub open spec fn first_player(w: World, p: u32) -> bool {
    &&& w.kinds@.contains_key(p)
    &&& w.kinds@[p] == EntityKind::Player
    &&& forall|q: u32| #[trigger] w.kinds@.contains_key(q) && w.kinds@[q] == EntityKind::Player ==> p <= q
}

/// The actions a tick resolves: the player's own, and for each enemy the
/// one it was given (an enemy without one acts at random).
pub open spec fn resolution(w: World, actions: Map<u32, Action>, p: u32, r: Map<u32, Action>) -> bool {
    &&& r.dom() == ids_of_kind(w, EntityKind::Enemy).insert(p)
    &&& r[p] == actions[p]
    &&& forall|e: u32|
        #[trigger] ids_of_kind(w, EntityKind::Enemy).contains(e) && actions.contains_key(e) ==> r[e] == actions[e]
}

/// A tick can be played: unless the episode is over, the tick counter can
/// grow and, unless time runs out, the world is well formed, has a player,
/// and the first player has an action.
pub open spec fn can_step_world(w: World, actions: Map<u32, Action>) -> bool {
    !w.done ==> {
        &&& w.tick < u32::MAX
        &&& w.tick + 1 < w.config.max_tick ==> {
            &&& wf(w)
            &&& exists|p: u32| #[trigger] ids_of_kind(w, EntityKind::Player).contains(p)
            &&& forall|p: u32| #[trigger] first_player(w, p) ==> actions.contains_key(p)
        }
    }
}

/// The value an entity observes at a cell: a mover it sees there now (the
/// one with the smallest id, shown by its cell code whatever terrain lies
/// under it), otherwise the remembered terrain (the one with the smallest
/// id; 0 for floor) of a cell it discovered, otherwise -1.
pub open spec fn observed_value(w: World, id: u32, pos: (usize, usize)) -> i32 {
    let vis = visible_set(w.height, w.width, walls(w), w.positions@[id], w.perception_ranges@[id]);
    let mover = occupant_of(w.positions@, w.kinds@, pos, true);
    let terrain = occupant_of(w.positions@, w.kinds@, pos, false);
    if vis.contains(pos) && mover is Some {
        cell_code(w.kinds@[mover->0])
    } else if discovered_cells(w, id).contains(pos) {
        match terrain {
            Some(t) => cell_code(w.kinds@[t]),
            None => 0i32,
        }
    } else {
        -1i32
    }
}

/// The entities that observe: those with a position, a discovered record
/// and a perception range.
pub open spec fn perceivers(w: World) -> Set<u32> {
    Set::new(
        |id: u32|
            w.positions@.contains_key(id) && w.discovered@.contains_key(id) && w.perception_ranges@.contains_key(id),
    )
}

/// `o` is what entity `id` observes of `w`.
pub open spec fn observes(w: World, id: u32, o: EntityObservation) -> bool {
    &&& o.id == id
    &&& o.position == w.positions@[id]
    &&& o.grid@.len() == w.height
    &&& forall|r: int|
        0 <= r < w.height ==> (#[trigger] o.grid@[r])@.len() == w.width && forall|c: int|
            0 <= c < w.width ==> (#[trigger] o.grid@[r]@[c]) == observed_value(w, id, (r as usize, c as usize))
}

fn observed_cell(
    world: &World,
    ids: &Vec<u32>,
    id: u32,
    visible: &Vec<(usize, usize)>,
    disc: &Vec<(usize, usize)>,
    cell: (usize, usize),
) -> (v: i32)
    requires
        wf(*world),
        lists_ids(ids@, world.positions@.dom()),
        world.positions@.contains_key(id),
        world.perception_ranges@.contains_key(id),
        world.discovered@.contains_key(id),
        *disc == world.discovered@[id],
        forall|p: (usize, usize)|
            visible@.contains(p) <==> visible_set(
                world.height,
                world.width,
                walls(*world),
                world.positions@[id],
                world.perception_ranges@[id],
            ).contains(p),
    ensures
        v == observed_value(*world, id, cell),
{
    let mover = first_of_kind(world, ids, cell, true);
    let seen = holds_cell(visible, cell);
    let known = holds_cell(disc, cell);
    assert(discovered_cells(*world, id) == disc@.to_set());
    match mover {
        Some(m) if seen => kind_to_cell(*world.kinds.get(&m).unwrap()),
        _ => {
            if known {
                match first_of_kind(world, ids, cell, false) {
                    Some(t) => kind_to_cell(*world.kinds.get(&t).unwrap()),
                    None => 0,
                }
            } else {
                -1
            }
        },
    }
}

fn observe_entity(world: &World, ids: &Vec<u32>, id: u32) -> (o: EntityObservation)
    requires
        wf(*world),
        lists_ids(ids@, world.positions@.dom()),
        perceivers(*world).contains(id),
    ensures
        observes(*world, id, o),
{
    let pos = *world.positions.get(&id).unwrap();
    let range = *world.perception_ranges.get(&id).unwrap();
    let disc = world.discovered.get(&id).unwrap();
    proof {
        lemma_vision_fits(*world, pos, range);
    }
    let visible = vision::get_visible_cells(world, pos, range);
    let mut grid: Vec<Vec<i32>> = Vec::new();
    let mut r: usize = 0;
    while r < world.height
        invariant
            r <= world.height,
            wf(*world),
            lists_ids(ids@, world.positions@.dom()),
            perceivers(*world).contains(id),
            pos == world.positions@[id],
            range == world.perception_ranges@[id],
            *disc == world.discovered@[id],
            forall|p: (usize, usize)|
                visible@.contains(p) <==> visible_set(world.height, world.width, walls(*world), pos, range).contains(p),
            grid@.len() == r,
            forall|rr: int|
                0 <= rr < r ==> (#[trigger] grid@[rr])@.len() == world.width && forall|c: int|
                    0 <= c < world.width ==> (#[trigger] grid@[rr]@[c]) == observed_value(*world, id, (rr as usize, c as usize)),
        decreases world.height - r,
    {
        let mut line: Vec<i32> = Vec::new();
        let mut c: usize = 0;
        while c < world.width
            invariant
                c <= world.width,
                r < world.height,
                wf(*world),
                lists_ids(ids@, world.positions@.dom()),
                perceivers(*world).contains(id),
                pos == world.positions@[id],
                range == world.perception_ranges@[id],
                *disc == world.discovered@[id],
                forall|p: (usize, usize)|
                    visible@.contains(p) <==> visible_set(world.height, world.width, walls(*world), pos, range).contains(p),
                line@.len() == c,
                forall|cc: int| 0 <= cc < c ==> #[trigger] line@[cc] == observed_value(*world, id, (r as usize, cc as usize)),
            decreases world.width - c,
        {
            let v = observed_cell(world, ids, id, &visible, disc, (r, c));
            line.push(v);
            c = c + 1;
        }
        grid.push(line);
        r = r + 1;
    }
    EntityObservation { id, position: pos, grid }
}

impl Environment for World {
    type Action = Action;
    type Observation = Observation;

    open spec fn can_reset(&self) -> bool {
        valid_layout(self.layout@) && layout_entities(self.layout@).len() <= u32::MAX
    }

    open spec fn can_step(&self, actions: Map<u32, Action>) -> bool {
        can_step_world(*self, actions)
    }

    open spec fn can_observe(&self) -> bool {
        wf(*self) && exists|p: u32| #[trigger] ids_of_kind(*self, EntityKind::Player).contains(p)
    }

    /// Rebuilds the world from its layout and configuration.
    fn reset(&mut self)
        ensures
            parsed_world(*final(self), old(self).layout@, old(self).config),
    {
        let new_world = parse_layout(self.layout.as_str(), &self.config);
        *self = new_world;
    }

    /// Plays one tick: nothing once the episode is over; otherwise the
    /// clock advances and either time runs out or the player (the first
    /// one) and every enemy act (see `tick_resolves`).
    fn step(&mut self, actions: HashMap<u32, Action>) -> (res: StepResult)
        ensures
            old(self).done ==> *final(self) == *old(self) && res.done == old(self).done && res.reason == old(self).end_reason,
            !old(self).done ==> final(self).tick == old(self).tick + 1,
            !old(self).done && old(self).tick + 1 >= old(self).config.max_tick ==> {
                &&& final(self).done
                &&& final(self).end_reason == Some(EndReason::Timeout)
                &&& res.done && res.reason == Some(EndReason::Timeout)
                &&& final(self).positions@ == old(self).positions@
                &&& final(self).kinds@ == old(self).kinds@
                &&& final(self).discovered@ == old(self).discovered@
                &&& final(self).perception_ranges@ == old(self).perception_ranges@
                &&& final(self).next_id == old(self).next_id
                &&& same_frame(*old(self), *final(self))
            },
            !old(self).done && old(self).tick + 1 < old(self).config.max_tick ==> {
                &&& exists|p: u32, r: Map<u32, Action>|
                    #[trigger] first_player(*old(self), p) && #[trigger] resolution(*old(self), actions@, p, r)
                        && tick_resolves(*old(self), *final(self), p, r, res)
                &&& wf(*final(self))
            },
    {
        if self.done {
            return StepResult { done: self.done, reason: self.end_reason };
        }
        self.tick = self.tick + 1;
        if self.tick >= self.config.max_tick {
            self.done = true;
            self.end_reason = Some(EndReason::Timeout);
            return StepResult { done: self.done, reason: self.end_reason };
        }
        let ghost pre = *self;
        let players = get_entity_ids_by_kind(self, EntityKind::Player);
        proof {
            let q = choose|q: u32| #[trigger] ids_of_kind(pre, EntityKind::Player).contains(q);
            assert(players@.contains(q));
        }
        let player_id = players[0];
        proof {
            assert(players@.contains(player_id));
            assert forall|q: u32| #[trigger] pre.kinds@.contains_key(q) && pre.kinds@[q] == EntityKind::Player implies player_id <= q by {
                assert(players@.contains(q));
                let k = choose|k: int| 0 <= k < players@.len() && players@[k] == q;
                if k > 0 {
                    assert(players@[0] < players@[k]);
                }
            }
            assert(first_player(pre, player_id));
            assert(first_player(*old(self), player_id));
            assert(actions@.contains_key(player_id));
        }
        let mut resolved: HashMap<u32, Action> = HashMap::new();
        let pa = *actions.get(&player_id).unwrap();
        resolved.insert(player_id, pa);
        let enemies = get_entity_ids_by_kind(self, EntityKind::Enemy);
        let mut k: usize = 0;
        while k < enemies.len()
            invariant
                k <= enemies.len(),
                lists_ids(enemies@, ids_of_kind(pre, EntityKind::Enemy)),
                first_player(pre, player_id),
                resolved@.dom() == Set::new(|e: u32| enemies@.take(k as int).contains(e)).insert(player_id),
                resolved@[player_id] == actions@[player_id],
                forall|e: u32|
                    #[trigger] enemies@.take(k as int).contains(e) && actions@.contains_key(e) ==> resolved@[e] == actions@[e],
            decreases enemies.len() - k,
        {
            let e = enemies[k];
            assert(enemies@.contains(e));
            let a = match actions.get(&e) {
                Some(a) => *a,
                None => random_action(),
            };
            let ghost before = resolved@;
            resolved.insert(e, a);
            proof {
                let t0 = enemies@.take(k as int);
                let t1 = enemies@.take(k + 1);
                assert forall|x: u32| #[trigger] t1.contains(x) <==> (t0.contains(x) || x == e) by {
                    if t1.contains(x) {
                        let j = choose|j: int| 0 <= j < t1.len() && t1[j] == x;
                        if j < k {
                            assert(t0[j] == x);
                        }
                    }
                    if t0.contains(x) {
                        let j = choose|j: int| 0 <= j < t0.len() && t0[j] == x;
                        assert(t1[j] == x);
                    }
                    if x == e {
                        assert(t1[k as int] == x);
                    }
                }
                assert(resolved@.dom() =~= Set::new(|x: u32| t1.contains(x)).insert(player_id));
                assert(e != player_id);
            }
            k = k + 1;
        }
        proof {
            assert(enemies@.take(enemies@.len() as int) =~= enemies@);
            assert(resolved@.dom() =~= ids_of_kind(pre, EntityKind::Enemy).insert(player_id));
            assert(resolution(pre, actions@, player_id, resolved@));
            assert forall|id: u32| #[trigger] resolved@.contains_key(id) implies pre.kinds@.contains_key(id) && is_mover(pre.kinds@[id]) by {
            }
        }
        let res = self.resolve_tick(player_id, &resolved);
        proof {
            let ghost r = resolved@;
            lemma_tick_resolves_any_tick(pre, *old(self), *self, player_id, r, res);
            assert(tick_resolves(*old(self), *self, player_id, r, res));
            assert(first_player(*old(self), player_id));
            assert(resolution(*old(self), actions@, player_id, r));
        }
        res
    }

    /// What every perceiving entity observes, in increasing id order, with
    /// the first player's id and the enemies' ids.
    fn observation(&self) -> (obs: Observation)
        ensures
            obs.entities@.len() == perceiving_count(*self),
            exists|ids: Seq<u32>|
                #[trigger] lists_ids(ids, perceivers(*self)) && ids.len() == obs.entities@.len() && forall|k: int|
                    0 <= k < ids.len() ==> observes(*self, ids[k], #[trigger] obs.entities@[k]),
            first_player(*self, obs.player_id),
            lists_ids(obs.enemy_ids@, ids_of_kind(*self, EntityKind::Enemy)),
    {
        let ids = sorted_ids(&self.positions);
        let mut entities: Vec<EntityObservation> = Vec::new();
        let ghost mut seen: Seq<u32> = seq![];
        let mut k: usize = 0;
        while k < ids.len()
            invariant
                k <= ids.len(),
                wf(*self),
                lists_ids(ids@, self.positions@.dom()),
                increasing(seen),
                forall|x: u32| seen.contains(x) <==> (ids@.take(k as int).contains(x) && perceivers(*self).contains(x)),
                seen.len() > 0 ==> exists|j: int| 0 <= j < k && ids@[j] == seen.last(),
                seen.len() == entities@.len(),
                forall|j: int| 0 <= j < seen.len() ==> observes(*self, seen[j], #[trigger] entities@[j]),
            decreases ids.len() - k,
        {
            let id = ids[k];
            assert(ids@.contains(id));
            let t0 = Ghost(ids@.take(k as int));
            let t1 = Ghost(ids@.take(k + 1));
            proof {
                assert forall|x: u32| #[trigger] t1@.contains(x) <==> (t0@.contains(x) || x == id) by {
                    if t1@.contains(x) {
                        let j = choose|j: int| 0 <= j < t1@.len() && t1@[j] == x;
                        if j < k {
                            assert(t0@[j] == x);
                        }
                    }
                    if t0@.contains(x) {
                        let j = choose|j: int| 0 <= j < t0@.len() && t0@[j] == x;
                        assert(t1@[j] == x);
                    }
                    if x == id {
                        assert(t1@[k as int] == x);
                    }
                }
            }
            if self.discovered.contains_key(&id) && self.perception_ranges.contains_key(&id) {
                let o = observe_entity(self, &ids, id);
                let ghost before = seen;
                entities.push(o);
                proof {
                    seen = seen.push(id);
                    assert(increasing(seen)) by {
                        if before.len() > 0 {
                            let j = choose|j: int| 0 <= j < k && ids@[j] == before.last();
                            assert(ids@[j] < ids@[k as int]);
                            assert forall|a: int, b: int| 0 <= a < b < seen.len() implies seen[a] < seen[b] by {
                                if b == seen.len() - 1 && a < b {
                                    assert(before[a] <= before.last());
                                }
                            }
                        }
                    }
                    assert forall|x: u32| seen.contains(x) <==> (t1@.contains(x) && perceivers(*self).contains(x)) by {
                        if seen.contains(x) && x != id {
                            let j = choose|j: int| 0 <= j < seen.len() && seen[j] == x;
                            assert(before[j] == x);
                        }
                        if before.contains(x) {
                            let j = choose|j: int| 0 <= j < before.len() && before[j] == x;
                            assert(seen[j] == x);
                        }
                        if x == id {
                            assert(seen[seen.len() - 1] == x);
                        }
                    }
                    assert(seen.last() == ids@[k as int]);
                    assert forall|j: int| 0 <= j < seen.len() implies observes(*self, seen[j], #[trigger] entities@[j]) by {
                        if j < before.len() {
                            assert(seen[j] == before[j]);
                        }
                    }
                }
            } else {
                proof {
                    assert(!perceivers(*self).contains(id));
                    assert forall|x: u32| seen.contains(x) <==> (t1@.contains(x) && perceivers(*self).contains(x)) by {
                    }
                    if seen.len() > 0 {
                        let j = choose|j: int| 0 <= j < k && ids@[j] == seen.last();
                        assert(0 <= j < k + 1);
                    }
                }
            }
            k = k + 1;
        }
        proof {
            assert(ids@.take(ids@.len() as int) =~= ids@);
            assert forall|x: u32| seen.contains(x) <==> perceivers(*self).contains(x) by {
                if perceivers(*self).contains(x) {
                    assert(ids@.contains(x));
                }
            }
            assert(lists_ids(seen, perceivers(*self)));
            lemma_lists_len(seen, perceivers(*self));
        }
        let players = get_entity_ids_by_kind(self, EntityKind::Player);
        proof {
            let q = choose|q: u32| #[trigger] ids_of_kind(*self, EntityKind::Player).contains(q);
            assert(players@.contains(q));
        }
        let player_id = players[0];
        proof {
            assert(players@.contains(player_id));
            assert forall|q: u32| #[trigger] self.kinds@.contains_key(q) && self.kinds@[q] == EntityKind::Player implies player_id <= q by {
                assert(players@.contains(q));
                let j = choose|j: int| 0 <= j < players@.len() && players@[j] == q;
                if j > 0 {
                    assert(players@[0] < players@[j]);
                }
            }
        }
        let enemy_ids = get_entity_ids_by_kind(self, EntityKind::Enemy);
        Observation { entities, player_id, enemy_ids }
    }

    /// Whether the episode is over.
    fn is_done(&self) -> (b: bool)
        ensures
            b == self.done,
    {
        self.done
    }
}

/// The outcome of a tick does not depend on the tick counter.
proof fn lemma_tick_resolves_any_tick(a: World, b: World, post: World, p: u32, r: Map<u32, Action>, res: StepResult)
    requires
        tick_resolves(a, post, p, r, res),
        a.positions@ == b.positions@,
        a.kinds@ == b.kinds@,
        a.discovered@ == b.discovered@,
        a.perception_ranges@ == b.perception_ranges@,
        a.width == b.width,
        a.height == b.height,
        a.layout@ == b.layout@,
        a.config == b.config,
        a.next_id == b.next_id,
        a.end_reason == b.end_reason,
    ensures
        tick_resolves(b, post, p, r, res),
{
    assert(walls(a) == walls(b));
    assert(moved_positions(a, r) =~= moved_positions(b, r));
    assert(dead(a, r, p) =~= dead(b, r, p));
    assert forall|id: u32| discovered_cells(a, id) == discovered_cells(b, id) by {}
}

/// The number of perceiving entities.
pub open spec fn perceiving_count(w: World) -> nat {
    perceivers(w).len()
}

/// A list of a set of ids is as long as the set.
proof fn lemma_lists_len(s: Seq<u32>, d: Set<u32>)
    requires
        lists_ids(s, d),
    ensures
        s.len() == d.len(),
{
    assert(s.no_duplicates()) by {
        assert forall|i: int, j: int| 0 <= i < s.len() && 0 <= j < s.len() && i != j implies s[i] != s[j] by {
            if i < j {
                assert(s[i] < s[j]);
            } else {
                assert(s[j] < s[i]);
            }
        }
    }
    s.unique_seq_to_set();
    assert(s.to_set() =~= d);
}

} // verus!

verus! {

/// A move never ends on a wall unless it starts on one: walls block movement.
pub proof fn lemma_moves_avoid_walls(w: World, pos: (usize, usize), a: Action)
    requires
        !walls(w).contains(pos),
    ensures
        !walls(w).contains(moved_to(w, pos, a)),
{
}

/// A move goes one cell in its direction (up and down change the row,
/// left and right the column) when that cell is in the grid and holds no
/// wall, and otherwise stays put.
pub proof fn lemma_move_cells(w: World, pos: (usize, usize))
    requires
        in_grid(w, pos),
    ensures
        ({
            let up = ((pos.0 - 1) as usize, pos.1);
            let down = ((pos.0 + 1) as usize, pos.1);
            let left = (pos.0, (pos.1 - 1) as usize);
            let right = (pos.0, (pos.1 + 1) as usize);
            &&& pos.0 >= 1 && !walls(w).contains(up) ==> moved_to(w, pos, Action::Up) == up
            &&& pos.0 >= 1 && walls(w).contains(up) ==> moved_to(w, pos, Action::Up) == pos
            &&& pos.0 == 0 ==> moved_to(w, pos, Action::Up) == pos
            &&& pos.0 + 1 < w.height && !walls(w).contains(down) ==> moved_to(w, pos, Action::Down) == down
            &&& pos.0 + 1 < w.height && walls(w).contains(down) ==> moved_to(w, pos, Action::Down) == pos
            &&& pos.0 + 1 == w.height ==> moved_to(w, pos, Action::Down) == pos
            &&& pos.1 >= 1 && !walls(w).contains(left) ==> moved_to(w, pos, Action::Left) == left
            &&& pos.1 >= 1 && walls(w).contains(left) ==> moved_to(w, pos, Action::Left) == pos
            &&& pos.1 == 0 ==> moved_to(w, pos, Action::Left) == pos
            &&& pos.1 + 1 < w.width && !walls(w).contains(right) ==> moved_to(w, pos, Action::Right) == right
            &&& pos.1 + 1 < w.width && walls(w).contains(right) ==> moved_to(w, pos, Action::Right) == pos
            &&& pos.1 + 1 == w.width ==> moved_to(w, pos, Action::Right) == pos
        }),
{
}

/// A move stays inside the grid.
pub proof fn lemma_moves_stay_in_grid(w: World, pos: (usize, usize), a: Action)
    requires
        1 <= w.height,
        1 <= w.width,
        in_grid(w, pos),
    ensures
        in_grid(w, moved_to(w, pos, a)),
{
}

/// Fog of war only lifts: in a tick, every surviving entity keeps every
/// cell it had discovered.
pub proof fn lemma_discovery_grows(pre: World, post: World, player: u32, r: Map<u32, Action>, res: StepResult, id: u32)
    requires
        tick_resolves(pre, post, player, r, res),
        post.discovered@.contains_key(id),
    ensures
        discovered_cells(pre, id).subset_of(discovered_cells(post, id)),
{
}

/// After a tick, a perceiving mover has discovered every cell it now sees.
pub proof fn lemma_sees_what_it_discovered(pre: World, post: World, player: u32, r: Map<u32, Action>, res: StepResult, id: u32)
    requires
        tick_resolves(pre, post, player, r, res),
        post.discovered@.contains_key(id),
        r.contains_key(id),
        pre.perception_ranges@.contains_key(id),
        pre.positions@.contains_key(id),
    ensures
        visible_set(pre.height, pre.width, walls(pre), post.positions@[id], post.perception_ranges@[id]).subset_of(
            discovered_cells(post, id),
        ),
{
    let gone = dead(pre, r, player);
    assert(!gone.contains(id));
    assert(post.positions@[id] == moved_positions(pre, r)[id]);
    assert(post.perception_ranges@[id] == pre.perception_ranges@[id]);
    let vs = visible_set(pre.height, pre.width, walls(pre), moved_positions(pre, r)[id], pre.perception_ranges@[id]);
    assert(discovered_cells(post, id) == discovered_cells(pre, id) + vs);
}

/// A tick of a running episode ends it exactly when it gives a reason,
/// and the reason is never a timeout.
pub proof fn lemma_tick_end_reason(pre: World, post: World, player: u32, r: Map<u32, Action>, res: StepResult)
    requires
        tick_resolves(pre, post, player, r, res),
        !pre.done,
        pre.end_reason is None,
    ensures
        res.done <==> res.reason is Some,
        res.reason != Some(EndReason::Timeout),
{
}

/// Walls and terrain never move, and only enemies (never the player) leave
/// the world in a tick.
pub proof fn lemma_tick_keeps_terrain(pre: World, post: World, player: u32, r: Map<u32, Action>, res: StepResult, id: u32)
    requires
        tick_resolves(pre, post, player, r, res),
        forall|m: u32| #[trigger] r.contains_key(m) ==> pre.kinds@.contains_key(m) && is_mover(pre.kinds@[m]),
        pre.positions@.contains_key(id),
        pre.kinds@.contains_key(id),
        !is_mover(pre.kinds@[id]) || id == player,
    ensures
        post.positions@.contains_key(id),
        post.kinds@[id] == pre.kinds@[id],
        !is_mover(pre.kinds@[id]) ==> post.positions@[id] == pre.positions@[id],
{
}

} // verus!
