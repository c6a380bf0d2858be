//! Mutation of layouts: walls flipped, enemies and traps added or removed,
//! entities moved, each at cells drawn at random among those that qualify.
//!
//! The cells of the interior are indexed by what they hold; every step
//! takes its cell from a list of the index and keeps grid and index in
//! agreement.

use vstd::prelude::*;

use crate::chance::{choose_several, random_below};
use crate::grid_world::layout::{
    char_rows, contains_char, goal_reachable, has_char_at, is_interior, is_layout_reachable, join_rows, joined,
    layout_to_chars, lemma_lines_of_joined_rows, rejoined_rows, lex_before, rows_view, searchable,
};
use crate::grid_world::text::{has_no_newline, lemma_lines_have_no_newline, rows_without_newline};
use crate::grid_world::text::string_of;

verus! {

/// What an enemy or trap mutation does.
#[derive(Clone, Copy, Debug, PartialEq, Eq, Structural)]
pub enum MutationType {
    Add,
    Remove,
    Nothing,
}

/// The interior cells of a layout grid, listed by the character they hold.
pub struct CellIndex {
    pub empty: Vec<(usize, usize)>,
    pub walls: Vec<(usize, usize)>,
    pub players: Vec<(usize, usize)>,
    pub goals: Vec<(usize, usize)>,
    pub enemies: Vec<(usize, usize)>,
    pub traps: Vec<(usize, usize)>,
}

/// The characters the index keeps a list for.
pub open spec fn tracked_char(c: char) -> bool {
    c == '.' || c == '#' || c == 'P' || c == 'G' || c == 'E' || c == 'T'
}

impl CellIndex {
    /// The list kept for the character `c` (empty for any other character).
    pub open spec fn cells_of(self, c: char) -> Seq<(usize, usize)> {
        if c == '.' {
            self.empty@
        } else if c == '#' {
            self.walls@
        } else if c == 'P' {
            self.players@
        } else if c == 'G' {
            self.goals@
        } else if c == 'E' {
            self.enemies@
        } else if c == 'T' {
            self.traps@
        } else {
            Seq::empty()
        }
    }
}

/// The character of a grid at a cell.
pub open spec fn char_at(g: Seq<Seq<char>>, p: (usize, usize)) -> char {
    g[p.0 as int][p.1 as int]
}

/// A grid of `height` rows whose first row is `width` long, at least two
/// each way, and whose rows reach every interior cell.
pub open spec fn grid_shape(g: Seq<Seq<char>>, height: usize, width: usize) -> bool {
    &&& g.len() == height
    &&& height >= 2
    &&& width >= 2
    &&& g[0].len() == width
    &&& forall|r: int| 1 <= r < height - 1 ==> #[trigger] g[r].len() + 1 >= width
}

/// Every listed cell is an interior cell that holds the list's character,
/// and no list repeats a cell.
pub open spec fn index_sound(g: Seq<Seq<char>>, height: usize, width: usize, ix: CellIndex) -> bool {
    &&& forall|c: char, k: int|
        tracked_char(c) && 0 <= k < ix.cells_of(c).len() ==> is_interior(width, height, #[trigger] ix.cells_of(c)[k])
            && char_at(g, ix.cells_of(c)[k]) == c
    &&& forall|c: char| tracked_char(c) ==> (#[trigger] ix.cells_of(c)).no_duplicates()
}

/// Every interior cell that holds `c` is on the list for `c`.
pub open spec fn index_complete_for(g: Seq<Seq<char>>, height: usize, width: usize, ix: CellIndex, c: char) -> bool {
    forall|p: (usize, usize)| is_interior(width, height, p) && #[trigger] char_at(g, p) == c ==> ix.cells_of(c).contains(p)
}

/// The cells of a list come in row-major order.
pub open spec fn row_major(s: Seq<(usize, usize)>) -> bool {
    forall|i: int, j: int|
        0 <= i < j < s.len() ==> lex_before((s[i].0 as int, s[i].1 as int), (s[j].0 as int, s[j].1 as int))
}

/// The index after `c`'s list has `p` appended.
fn push_cell(ix: &mut CellIndex, c: char, p: (usize, usize))
    requires
        tracked_char(c),
    ensures
        forall|d: char| #[trigger] final(ix).cells_of(d) == if d == c { old(ix).cells_of(d).push(p) } else { old(ix).cells_of(d) },
{
    if c == '.' {
        ix.empty.push(p);
    } else if c == '#' {
        ix.walls.push(p);
    } else if c == 'P' {
        ix.players.push(p);
    } else if c == 'G' {
        ix.goals.push(p);
    } else if c == 'E' {
        ix.enemies.push(p);
    } else {
        ix.traps.push(p);
    }
}

/// The cell at position `i` of `c`'s list, taken off the list.
fn take_cell(ix: &mut CellIndex, c: char, i: usize) -> (p: (usize, usize))
    requires
        tracked_char(c),
        i < old(ix).cells_of(c).len(),
    ensures
        p == old(ix).cells_of(c)[i as int],
        forall|d: char| #[trigger] final(ix).cells_of(d) == if d == c { old(ix).cells_of(d).remove(i as int) } else { old(ix).cells_of(d) },
{
    if c == '.' {
        ix.empty.remove(i)
    } else if c == '#' {
        ix.walls.remove(i)
    } else if c == 'P' {
        ix.players.remove(i)
    } else if c == 'G' {
        ix.goals.remove(i)
    } else if c == 'E' {
        ix.enemies.remove(i)
    } else {
        ix.traps.remove(i)
    }
}

/// The length of `c`'s list.
fn count_of(ix: &CellIndex, c: char) -> (n: usize)
    requires
        tracked_char(c),
    ensures
        n == ix.cells_of(c).len(),
{
    if c == '.' {
        ix.empty.len()
    } else if c == '#' {
        ix.walls.len()
    } else if c == 'P' {
        ix.players.len()
    } else if c == 'G' {
        ix.goals.len()
    } else if c == 'E' {
        ix.enemies.len()
    } else {
        ix.traps.len()
    }
}

/// Writes `ch` into one cell of a grid of chars.
fn set_cell(grid: &mut Vec<Vec<char>>, p: (usize, usize), ch: char)
    requires
        p.0 < old(grid)@.len(),
        p.1 < old(grid)@[p.0 as int]@.len(),
    ensures
        rows_view(final(grid)@) == rows_view(old(grid)@).update(
            p.0 as int,
            rows_view(old(grid)@)[p.0 as int].update(p.1 as int, ch),
        ),
{
    grid[p.0].set(p.1, ch);
    assert(rows_view(grid@) =~= rows_view(old(grid)@).update(
        p.0 as int,
        rows_view(old(grid)@)[p.0 as int].update(p.1 as int, ch),
    ));
}

/// The interior cells of a grid, listed by what they hold, each list in
/// row-major order. Cells holding other characters are left out.
pub fn index_cells(grid: &Vec<Vec<char>>, height: usize, width: usize) -> (ix: CellIndex)
    requires
        grid_shape(rows_view(grid@), height, width),
    ensures
        index_sound(rows_view(grid@), height, width, ix),
        forall|c: char| tracked_char(c) ==> index_complete_for(rows_view(grid@), height, width, ix, c),
        forall|c: char| tracked_char(c) ==> row_major(#[trigger] ix.cells_of(c)),
{
    let ghost g = rows_view(grid@);
    let mut ix = CellIndex {
        empty: Vec::new(),
        walls: Vec::new(),
        players: Vec::new(),
        goals: Vec::new(),
        enemies: Vec::new(),
        traps: Vec::new(),
    };
    let mut row: usize = 1;
    while row + 1 < height
        invariant
            1 <= row < height,
            g == rows_view(grid@),
            grid_shape(g, height, width),
            forall|c: char, k: int|
                tracked_char(c) && 0 <= k < ix.cells_of(c).len() ==> is_interior(width, height, #[trigger] ix.cells_of(c)[k])
                    && char_at(g, ix.cells_of(c)[k]) == c && ix.cells_of(c)[k].0 < row,
            forall|c: char| tracked_char(c) ==> row_major(#[trigger] ix.cells_of(c)),
            forall|p: (usize, usize)|
                is_interior(width, height, p) && p.0 < row && tracked_char(#[trigger] char_at(g, p)) ==> ix.cells_of(
                    char_at(g, p),
                ).contains(p),
        decreases height - row,
    {
        assert(g[row as int].len() + 1 >= width);
        let mut col: usize = 1;
        while col + 1 < width
            invariant
                1 <= row,
                row + 1 < height,
                1 <= col < width,
                g == rows_view(grid@),
                grid_shape(g, height, width),
                g[row as int].len() + 1 >= width,
                forall|c: char, k: int|
                    tracked_char(c) && 0 <= k < ix.cells_of(c).len() ==> is_interior(width, height, #[trigger] ix.cells_of(c)[k])
                        && char_at(g, ix.cells_of(c)[k]) == c && lex_before(
                        (ix.cells_of(c)[k].0 as int, ix.cells_of(c)[k].1 as int),
                        (row as int, col as int),
                    ),
                forall|c: char| tracked_char(c) ==> row_major(#[trigger] ix.cells_of(c)),
                forall|p: (usize, usize)|
                    is_interior(width, height, p) && (p.0 < row || (p.0 == row && p.1 < col)) && tracked_char(
                        #[trigger] char_at(g, p),
                    ) ==> ix.cells_of(char_at(g, p)).contains(p),
            decreases width - col,
        {
            let ch = grid[row][col];
            assert(ch == char_at(g, (row, col)));
            if ch == '.' || ch == '#' || ch == 'P' || ch == 'G' || ch == 'E' || ch == 'T' {
                let ghost before = ix;
                push_cell(&mut ix, ch, (row, col));
                proof {
                    let q = (row, col);
                    assert(ix.cells_of(ch).last() == q);
                    assert forall|c: char| tracked_char(c) implies row_major(#[trigger] ix.cells_of(c)) by {
                        assert(ix.cells_of(c) == if c == ch { before.cells_of(c).push(q) } else { before.cells_of(c) });
                    }
                    assert forall|p: (usize, usize)|
                        is_interior(width, height, p) && (p.0 < row || (p.0 == row && p.1 < col + 1)) && tracked_char(
                            #[trigger] char_at(g, p),
                        ) implies ix.cells_of(char_at(g, p)).contains(p) by {
                        let d = char_at(g, p);
                        assert(ix.cells_of(d) == if d == ch { before.cells_of(d).push(q) } else { before.cells_of(d) });
                        if p == q {
                            assert(ix.cells_of(d)[ix.cells_of(d).len() - 1] == p);
                        } else {
                            let k = choose|k: int| 0 <= k < before.cells_of(d).len() && before.cells_of(d)[k] == p;
                            assert(ix.cells_of(d)[k] == p);
                        }
                    }
                }
            }
            col = col + 1;
        }
        row = row + 1;
    }
    proof {
        assert forall|c: char| tracked_char(c) implies (#[trigger] ix.cells_of(c)).no_duplicates() by {
            let s = ix.cells_of(c);
            assert forall|i: int, j: int| 0 <= i < s.len() && 0 <= j < s.len() && i != j implies s[i] != s[j] by {
                if i < j {
                    assert(lex_before((s[i].0 as int, s[i].1 as int), (s[j].0 as int, s[j].1 as int)));
                } else {
                    assert(lex_before((s[j].0 as int, s[j].1 as int), (s[i].0 as int, s[i].1 as int)));
                }
            }
        }
    }
    ix
}

/// The grid with `ch` written at `p`.
pub open spec fn put(g: Seq<Seq<char>>, p: (usize, usize), ch: char) -> Seq<Seq<char>> {
    g.update(p.0 as int, g[p.0 as int].update(p.1 as int, ch))
}

/// The two grids have the same rows, of the same lengths, and differ only at
/// interior cells where both hold characters of `among`.
pub open spec fn changed_only_among(
    g0: Seq<Seq<char>>,
    g1: Seq<Seq<char>>,
    height: usize,
    width: usize,
    among: Set<char>,
) -> bool {
    &&& g1.len() == g0.len()
    &&& forall|r: int| 0 <= r < g0.len() ==> #[trigger] g1[r].len() == g0[r].len()
    &&& forall|r: int, c: int|
        0 <= r < g0.len() && 0 <= c < g0[r].len() && #[trigger] g1[r][c] != g0[r][c] ==> is_interior(
            width,
            height,
            (r as usize, c as usize),
        ) && among.contains(g0[r][c]) && among.contains(g1[r][c])
}

proof fn lemma_changed_refl(g: Seq<Seq<char>>, height: usize, width: usize, among: Set<char>)
    ensures
        changed_only_among(g, g, height, width, among),
{
}

proof fn lemma_changed_trans(
    g0: Seq<Seq<char>>,
    g1: Seq<Seq<char>>,
    g2: Seq<Seq<char>>,
    height: usize,
    width: usize,
    a: Set<char>,
    b: Set<char>,
)
    requires
        changed_only_among(g0, g1, height, width, a),
        changed_only_among(g1, g2, height, width, b),
    ensures
        changed_only_among(g0, g2, height, width, a + b),
{
    assert forall|r: int, c: int| 0 <= r < g0.len() && 0 <= c < g0[r].len() && #[trigger] g2[r][c] != g0[r][c] implies is_interior(
        width,
        height,
        (r as usize, c as usize),
    ) && (a + b).contains(g0[r][c]) && (a + b).contains(g2[r][c]) by {
        assert(g1[r].len() == g0[r].len());
        if g1[r][c] != g0[r][c] {
        } else {
            assert(g2[r][c] != g1[r][c]);
        }
    }
}

/// Moves the cell at position `i` of `from`'s list to the end of `to`'s
/// list, writing `to` into the grid there. Returns the cell.
fn move_cell(
    grid: &mut Vec<Vec<char>>,
    ix: &mut CellIndex,
    height: usize,
    width: usize,
    from: char,
    to: char,
    i: usize,
) -> (p: (usize, usize))
    requires
        grid_shape(rows_view(old(grid)@), height, width),
        index_sound(rows_view(old(grid)@), height, width, *old(ix)),
        tracked_char(from),
        tracked_char(to),
        from != to,
        i < old(ix).cells_of(from).len(),
    ensures
        p == old(ix).cells_of(from)[i as int],
        rows_view(final(grid)@) == put(rows_view(old(grid)@), p, to),
        forall|d: char|
            #[trigger] final(ix).cells_of(d) == if d == from {
                old(ix).cells_of(d).remove(i as int)
            } else if d == to {
                old(ix).cells_of(d).push(p)
            } else {
                old(ix).cells_of(d)
            },
        grid_shape(rows_view(final(grid)@), height, width),
        index_sound(rows_view(final(grid)@), height, width, *final(ix)),
        forall|c: char|
            tracked_char(c) && index_complete_for(rows_view(old(grid)@), height, width, *old(ix), c)
                ==> index_complete_for(rows_view(final(grid)@), height, width, *final(ix), c),
        changed_only_among(rows_view(old(grid)@), rows_view(final(grid)@), height, width, set![from, to]),
{
    let ghost g0 = rows_view(grid@);
    let ghost ix0 = *ix;
    let p = take_cell(ix, from, i);
    proof {
        assert(is_interior(width, height, ix0.cells_of(from)[i as int]));
        assert(g0[p.0 as int].len() + 1 >= width);
    }
    set_cell(grid, p, to);
    push_cell(ix, to, p);
    proof {
        let g1 = rows_view(grid@);
        assert(g1 == put(g0, p, to));
        assert(char_at(g0, p) == from);
        assert(g1[0] == g0[0]);
        assert forall|r: int| 1 <= r < height - 1 implies #[trigger] g1[r].len() + 1 >= width by {
            assert(g0[r].len() + 1 >= width);
        }
        assert forall|q: (usize, usize)| is_interior(width, height, q) && q != p implies #[trigger] char_at(g1, q) == char_at(g0, q) by {
        }
        assert forall|c: char, k: int|
            tracked_char(c) && 0 <= k < ix.cells_of(c).len() implies is_interior(width, height, #[trigger] ix.cells_of(c)[k])
                && char_at(g1, ix.cells_of(c)[k]) == c by {
            if c == from {
                let j = if k < i { k } else { k + 1 };
                assert(ix.cells_of(c)[k] == ix0.cells_of(c)[j]);
                assert(ix0.cells_of(c)[j] != ix0.cells_of(c)[i as int]);
            } else if c == to {
                if k < ix0.cells_of(c).len() {
                    assert(ix.cells_of(c)[k] == ix0.cells_of(c)[k]);
                    assert(char_at(g0, ix0.cells_of(c)[k]) == c);
                }
            } else {
                assert(char_at(g0, ix0.cells_of(c)[k]) == c);
            }
        }
        assert forall|c: char| tracked_char(c) implies (#[trigger] ix.cells_of(c)).no_duplicates() by {
            if c == to {
                assert forall|k: int| 0 <= k < ix0.cells_of(c).len() implies ix0.cells_of(c)[k] != p by {
                    assert(char_at(g0, ix0.cells_of(c)[k]) == c);
                }
                let s = ix.cells_of(c);
                assert forall|a: int, b: int| 0 <= a < s.len() && 0 <= b < s.len() && a != b implies s[a] != s[b] by {
                    if a < ix0.cells_of(c).len() && b < ix0.cells_of(c).len() {
                        assert(ix0.cells_of(c).no_duplicates());
                    }
                }
            } else if c == from {
                let s = ix.cells_of(c);
                assert forall|a: int, b: int| 0 <= a < s.len() && 0 <= b < s.len() && a != b implies s[a] != s[b] by {
                    let ja = if a < i { a } else { a + 1 };
                    let jb = if b < i { b } else { b + 1 };
                    assert(s[a] == ix0.cells_of(c)[ja]);
                    assert(s[b] == ix0.cells_of(c)[jb]);
                    assert(ix0.cells_of(c).no_duplicates());
                }
            } else {
                assert(ix0.cells_of(c).no_duplicates());
            }
        }
        assert forall|c: char|
            tracked_char(c) && index_complete_for(g0, height, width, ix0, c) implies index_complete_for(
            g1,
            height,
            width,
            *ix,
            c,
        ) by {
            assert forall|q: (usize, usize)| is_interior(width, height, q) && #[trigger] char_at(g1, q) == c implies ix.cells_of(
                c,
            ).contains(q) by {
                if q == p {
                    assert(ix.cells_of(to)[ix.cells_of(to).len() - 1] == p);
                } else {
                    assert(char_at(g0, q) == c);
                    let k = choose|k: int| 0 <= k < ix0.cells_of(c).len() && ix0.cells_of(c)[k] == q;
                    if c == from {
                        assert(k != i);
                        let j = if k < i { k } else { k - 1 };
                        assert(ix.cells_of(c)[j] == q);
                    } else {
                        assert(ix.cells_of(c)[k] == q);
                    }
                }
            }
        }
        assert forall|r: int, c: int|
            0 <= r < g0.len() && 0 <= c < g0[r].len() && #[trigger] g1[r][c] != g0[r][c] implies is_interior(
            width,
            height,
            (r as usize, c as usize),
        ) && set![from, to].contains(g0[r][c]) && set![from, to].contains(g1[r][c]) by {
            assert(r == p.0 && c == p.1);
        }
    }
    p
}

/// How many cells the lists of empty floor and walls hold after `n` wall
/// mutations, starting from `empty` and `walls`: each adds a wall while an
/// empty cell is left and the count stays within `max_walls`, and
/// otherwise removes one if there is any.
pub open spec fn wall_counts(empty: nat, walls: nat, n: nat, max_walls: nat) -> (nat, nat)
    decreases n,
{
    if n == 0 {
        (empty, walls)
    } else {
        let (e, w) = wall_counts(empty, walls, (n - 1) as nat, max_walls);
        if e > 0 && w + 1 <= max_walls {
            ((e - 1) as nat, w + 1)
        } else if w > 0 {
            (e + 1, (w - 1) as nat)
        } else {
            (e, w)
        }
    }
}

proof fn lemma_wall_counts_total(empty: nat, walls: nat, n: nat, max_walls: nat)
    ensures
        wall_counts(empty, walls, n, max_walls).0 + wall_counts(empty, walls, n, max_walls).1 == empty + walls,
    decreases n,
{
    if n > 0 {
        lemma_wall_counts_total(empty, walls, (n - 1) as nat, max_walls);
    }
}

/// One wall round on a grid with its empty-floor and wall lists: while an
/// empty cell is left and one more wall stays within `max_walls`, the
/// empty cell at position `pick` becomes a wall and moves to the wall list;
/// otherwise, if there is a wall, the wall at position `pick` becomes
/// floor and moves to the empty-floor list; otherwise nothing changes.
pub open spec fn wall_round(
    g: Seq<Seq<char>>,
    empty: Seq<(usize, usize)>,
    walls: Seq<(usize, usize)>,
    max_walls: nat,
    pick: int,
) -> (Seq<Seq<char>>, Seq<(usize, usize)>, Seq<(usize, usize)>) {
    if empty.len() > 0 && walls.len() + 1 <= max_walls {
        let p = empty[pick];
        (put(g, p, '#'), empty.remove(pick), walls.push(p))
    } else if walls.len() > 0 {
        let p = walls[pick];
        (put(g, p, '.'), empty.push(p), walls.remove(pick))
    } else {
        (g, empty, walls)
    }
}

/// A wall round adds a wall at the picked empty cell while an empty cell
/// is left and the walls stay within `max_walls`; otherwise it turns the
/// picked wall into floor if there is a wall; otherwise nothing changes.
pub proof fn lemma_wall_round_effect(
    g: Seq<Seq<char>>,
    empty: Seq<(usize, usize)>,
    walls: Seq<(usize, usize)>,
    max_walls: nat,
    pick: int,
)
    ensures
        ({
            let (g2, e2, w2) = wall_round(g, empty, walls, max_walls, pick);
            &&& empty.len() > 0 && walls.len() + 1 <= max_walls && 0 <= pick < empty.len() ==> {
                &&& w2.len() == walls.len() + 1
                &&& e2.len() == empty.len() - 1
                &&& w2 == walls.push(empty[pick])
                &&& e2 == empty.remove(pick)
                &&& g2 == g.update(empty[pick].0 as int, g[empty[pick].0 as int].update(empty[pick].1 as int, '#'))
            }
            &&& (empty.len() == 0 || walls.len() + 1 > max_walls) && 0 <= pick < walls.len() ==> {
                &&& w2.len() == walls.len() - 1
                &&& e2.len() == empty.len() + 1
                &&& w2 == walls.remove(pick)
                &&& e2 == empty.push(walls[pick])
                &&& g2 == g.update(walls[pick].0 as int, g[walls[pick].0 as int].update(walls[pick].1 as int, '.'))
            }
            &&& (empty.len() == 0 || walls.len() + 1 > max_walls) && walls.len() == 0 ==> g2 == g && e2 == empty
                && w2 == walls
        }),
        empty.len() > 0 && walls.len() + 1 <= max_walls ==> wall_counts(empty.len(), walls.len(), 1, max_walls)
            == ((empty.len() - 1) as nat, walls.len() + 1),
        (empty.len() == 0 || walls.len() + 1 > max_walls) && walls.len() > 0 ==> wall_counts(
            empty.len(),
            walls.len(),
            1,
            max_walls,
        ) == (empty.len() + 1, (walls.len() - 1) as nat),
{
    assert(wall_counts(empty.len(), walls.len(), 0, max_walls) == (empty.len(), walls.len()));
}

/// `pick` is a position of the list a wall round takes its cell from.
pub open spec fn wall_pick_fits(empty: Seq<(usize, usize)>, walls: Seq<(usize, usize)>, max_walls: nat, pick: int) -> bool {
    if empty.len() > 0 && walls.len() + 1 <= max_walls {
        0 <= pick < empty.len()
    } else if walls.len() > 0 {
        0 <= pick < walls.len()
    } else {
        true
    }
}

/// Wall rounds with the given picks, one after the other.
pub open spec fn wall_rounds(
    g: Seq<Seq<char>>,
    empty: Seq<(usize, usize)>,
    walls: Seq<(usize, usize)>,
    max_walls: nat,
    picks: Seq<int>,
) -> (Seq<Seq<char>>, Seq<(usize, usize)>, Seq<(usize, usize)>)
    decreases picks.len(),
{
    if picks.len() == 0 {
        (g, empty, walls)
    } else {
        let s = wall_rounds(g, empty, walls, max_walls, picks.drop_last());
        wall_round(s.0, s.1, s.2, max_walls, picks.last())
    }
}

/// Every pick of a run of wall rounds fits the round it is used in.
pub open spec fn wall_picks_fit(
    g: Seq<Seq<char>>,
    empty: Seq<(usize, usize)>,
    walls: Seq<(usize, usize)>,
    max_walls: nat,
    picks: Seq<int>,
) -> bool
    decreases picks.len(),
{
    if picks.len() == 0 {
        true
    } else {
        let s = wall_rounds(g, empty, walls, max_walls, picks.drop_last());
        wall_picks_fit(g, empty, walls, max_walls, picks.drop_last()) && wall_pick_fits(s.1, s.2, max_walls, picks.last())
    }
}

/// One wall mutation with the cell drawn: while an empty cell is left and
/// one more wall stays within `max_walls`, the empty cell at position `pick`
/// of its list becomes a wall; otherwise, if there is a wall, the wall at
/// position `pick` of its list becomes empty floor; otherwise nothing
/// changes.
pub fn apply_wall_mutation(
    grid: &mut Vec<Vec<char>>,
    ix: &mut CellIndex,
    height: usize,
    width: usize,
    max_walls: usize,
    pick: usize,
)
    requires
        grid_shape(rows_view(old(grid)@), height, width),
        index_sound(rows_view(old(grid)@), height, width, *old(ix)),
        old(ix).empty@.len() > 0 && old(ix).walls@.len() + 1 <= max_walls ==> pick < old(ix).empty@.len(),
        !(old(ix).empty@.len() > 0 && old(ix).walls@.len() + 1 <= max_walls) ==> pick < old(ix).walls@.len()
            || old(ix).walls@.len() == 0,
    ensures
        grid_shape(rows_view(final(grid)@), height, width),
        index_sound(rows_view(final(grid)@), height, width, *final(ix)),
        final(ix).players@ == old(ix).players@,
        final(ix).goals@ == old(ix).goals@,
        final(ix).enemies@ == old(ix).enemies@,
        final(ix).traps@ == old(ix).traps@,
        if old(ix).empty@.len() > 0 && old(ix).walls@.len() + 1 <= max_walls {
            let p = old(ix).empty@[pick as int];
            &&& final(ix).empty@ == old(ix).empty@.remove(pick as int)
            &&& final(ix).walls@ == old(ix).walls@.push(p)
            &&& rows_view(final(grid)@) == put(rows_view(old(grid)@), p, '#')
        } else if old(ix).walls@.len() > 0 {
            let p = old(ix).walls@[pick as int];
            &&& final(ix).walls@ == old(ix).walls@.remove(pick as int)
            &&& final(ix).empty@ == old(ix).empty@.push(p)
            &&& rows_view(final(grid)@) == put(rows_view(old(grid)@), p, '.')
        } else {
            &&& final(ix).empty@ == old(ix).empty@
            &&& final(ix).walls@ == old(ix).walls@
            &&& final(grid)@ == old(grid)@
        },
        forall|c: char|
            tracked_char(c) && index_complete_for(rows_view(old(grid)@), height, width, *old(ix), c)
                ==> index_complete_for(rows_view(final(grid)@), height, width, *final(ix), c),
        changed_only_among(rows_view(old(grid)@), rows_view(final(grid)@), height, width, set!['.', '#']),
        (rows_view(final(grid)@), final(ix).empty@, final(ix).walls@) == wall_round(
            rows_view(old(grid)@),
            old(ix).empty@,
            old(ix).walls@,
            max_walls as nat,
            pick as int,
        ),
{
    let ghost ix0 = *ix;
    if ix.empty.len() > 0 && ix.walls.len() < max_walls {
        let _ = move_cell(grid, ix, height, width, '.', '#', pick);
        proof {
            assert(ix.cells_of('P') == ix0.cells_of('P'));
            assert(ix.cells_of('G') == ix0.cells_of('G'));
            assert(ix.cells_of('E') == ix0.cells_of('E'));
            assert(ix.cells_of('T') == ix0.cells_of('T'));
            assert(ix.cells_of('.') == ix0.cells_of('.').remove(pick as int));
            assert(ix.cells_of('#') == ix0.cells_of('#').push(ix0.empty@[pick as int]));
            assert(set!['.', '#'] =~= set!['.', '#']);
        }
    } else if ix.walls.len() > 0 {
        let _ = move_cell(grid, ix, height, width, '#', '.', pick);
        proof {
            assert(ix.cells_of('P') == ix0.cells_of('P'));
            assert(ix.cells_of('G') == ix0.cells_of('G'));
            assert(ix.cells_of('E') == ix0.cells_of('E'));
            assert(ix.cells_of('T') == ix0.cells_of('T'));
            assert(ix.cells_of('#') == ix0.cells_of('#').remove(pick as int));
            assert(ix.cells_of('.') == ix0.cells_of('.').push(ix0.walls@[pick as int]));
            assert(set!['#', '.'] =~= set!['.', '#']);
        }
    } else {
        proof {
            lemma_changed_refl(rows_view(grid@), height, width, set!['.', '#']);
        }
    }
}

/// `n` wall mutations (see `apply_wall_mutation`), each at a cell drawn at
/// random from the list it takes from. Which cells change is left to
/// chance; how many cells each list holds afterwards is not.
pub fn mutate_walls(
    grid: &mut Vec<Vec<char>>,
    ix: &mut CellIndex,
    height: usize,
    width: usize,
    n: usize,
    max_walls: usize,
)
    requires
        grid_shape(rows_view(old(grid)@), height, width),
        index_sound(rows_view(old(grid)@), height, width, *old(ix)),
    ensures
        grid_shape(rows_view(final(grid)@), height, width),
        index_sound(rows_view(final(grid)@), height, width, *final(ix)),
        final(ix).players@ == old(ix).players@,
        final(ix).goals@ == old(ix).goals@,
        final(ix).enemies@ == old(ix).enemies@,
        final(ix).traps@ == old(ix).traps@,
        (final(ix).empty@.len(), final(ix).walls@.len()) == wall_counts(
            old(ix).empty@.len(),
            old(ix).walls@.len(),
            n as nat,
            max_walls as nat,
        ),
        forall|c: char|
            tracked_char(c) && index_complete_for(rows_view(old(grid)@), height, width, *old(ix), c)
                ==> index_complete_for(rows_view(final(grid)@), height, width, *final(ix), c),
        changed_only_among(rows_view(old(grid)@), rows_view(final(grid)@), height, width, set!['.', '#']),
        exists|picks: Seq<int>|
            {
                &&& picks.len() == n
                &&& wall_picks_fit(rows_view(old(grid)@), old(ix).empty@, old(ix).walls@, max_walls as nat, picks)
                &&& (rows_view(final(grid)@), final(ix).empty@, final(ix).walls@) == #[trigger] wall_rounds(
                    rows_view(old(grid)@),
                    old(ix).empty@,
                    old(ix).walls@,
                    max_walls as nat,
                    picks,
                )
            },
{
    let ghost g0 = rows_view(grid@);
    let ghost ix0 = *ix;
    let ghost mut picks: Seq<int> = seq![];
    proof {
        lemma_changed_refl(g0, height, width, set!['.', '#']);
    }
    let mut k: usize = 0;
    while k < n
        invariant
            k <= n,
            grid_shape(rows_view(grid@), height, width),
            index_sound(rows_view(grid@), height, width, *ix),
            ix.players@ == ix0.players@,
            ix.goals@ == ix0.goals@,
            ix.enemies@ == ix0.enemies@,
            ix.traps@ == ix0.traps@,
            (ix.empty@.len(), ix.walls@.len()) == wall_counts(ix0.empty@.len(), ix0.walls@.len(), k as nat, max_walls as nat),
            forall|c: char|
                tracked_char(c) && index_complete_for(g0, height, width, ix0, c) ==> index_complete_for(
                    rows_view(grid@),
                    height,
                    width,
                    *ix,
                    c,
                ),
            changed_only_among(g0, rows_view(grid@), height, width, set!['.', '#']),
            picks.len() == k,
            wall_picks_fit(g0, ix0.empty@, ix0.walls@, max_walls as nat, picks),
            (rows_view(grid@), ix.empty@, ix.walls@) == wall_rounds(g0, ix0.empty@, ix0.walls@, max_walls as nat, picks),
        decreases n - k,
    {
        let ghost g1 = rows_view(grid@);
        let ghost e1 = ix.empty@;
        let ghost w1 = ix.walls@;
        let pick = if ix.empty.len() > 0 && ix.walls.len() < max_walls {
            random_below(ix.empty.len())
        } else if ix.walls.len() > 0 {
            random_below(ix.walls.len())
        } else {
            0
        };
        apply_wall_mutation(grid, ix, height, width, max_walls, pick);
        proof {
            lemma_changed_trans(g0, g1, rows_view(grid@), height, width, set!['.', '#'], set!['.', '#']);
            assert(set!['.', '#'] + set!['.', '#'] =~= set!['.', '#']);
            let next = picks.push(pick as int);
            assert(next.drop_last() =~= picks);
            assert(wall_pick_fits(e1, w1, max_walls as nat, pick as int));
            picks = next;
        }
        k = k + 1;
    }
}

/// How many cells the empty-floor list and an entity's list hold after one
/// mutation of that entity: `Add` takes an empty cell while the entity
/// count is under `max_count`, `Remove` gives one back while there is any,
/// `Nothing` keeps both.
pub open spec fn entity_counts(empty: nat, count: nat, max_count: nat, mutation: MutationType) -> (nat, nat) {
    match mutation {
        MutationType::Add => if count < max_count && empty > 0 {
            ((empty - 1) as nat, count + 1)
        } else {
            (empty, count)
        },
        MutationType::Remove => if count > 0 {
            (empty + 1, (count - 1) as nat)
        } else {
            (empty, count)
        },
        MutationType::Nothing => (empty, count),
    }
}

/// Whether a mutation of an entity with `count` cells, `empty` empty cells
/// and a cap of `max_count` adds one.
pub open spec fn entity_adds(empty: nat, count: nat, max_count: nat, mutation: MutationType) -> bool {
    mutation == MutationType::Add && count < max_count && empty > 0
}

/// Whether such a mutation removes one.
pub open spec fn entity_removes(count: nat, mutation: MutationType) -> bool {
    mutation == MutationType::Remove && count > 0
}

/// One mutation of an entity on a grid with its empty-floor list and the
/// entity's list: when it adds (see `entity_adds`) the empty cell at
/// position `pick` becomes `kind` and moves to the entity's list; when it
/// removes (see `entity_removes`) the entity's cell at position `pick`
/// becomes floor and moves to the empty-floor list; otherwise nothing
/// changes.
pub open spec fn entity_round(
    g: Seq<Seq<char>>,
    empty: Seq<(usize, usize)>,
    cells: Seq<(usize, usize)>,
    kind: char,
    max_count: nat,
    mutation: MutationType,
    pick: int,
) -> (Seq<Seq<char>>, Seq<(usize, usize)>, Seq<(usize, usize)>) {
    if entity_adds(empty.len(), cells.len(), max_count, mutation) {
        let p = empty[pick];
        (put(g, p, kind), empty.remove(pick), cells.push(p))
    } else if entity_removes(cells.len(), mutation) {
        let p = cells[pick];
        (put(g, p, '.'), empty.push(p), cells.remove(pick))
    } else {
        (g, empty, cells)
    }
}

/// `pick` is a position of the list an entity mutation takes its cell from.
pub open spec fn entity_pick_fits(
    empty: Seq<(usize, usize)>,
    cells: Seq<(usize, usize)>,
    max_count: nat,
    mutation: MutationType,
    pick: int,
) -> bool {
    if entity_adds(empty.len(), cells.len(), max_count, mutation) {
        0 <= pick < empty.len()
    } else if entity_removes(cells.len(), mutation) {
        0 <= pick < cells.len()
    } else {
        true
    }
}

/// An enemy or trap mutation moves one cell between the empty-floor list
/// and the entity's list exactly when it can: `Add` takes the picked empty
/// cell while there are fewer than `max_count` of the entity and some
/// empty cell, `Remove` gives back the picked cell while there is any, and
/// otherwise the grid and both lists stay as they are.
pub proof fn lemma_entity_round_effect(
    g: Seq<Seq<char>>,
    empty: Seq<(usize, usize)>,
    cells: Seq<(usize, usize)>,
    kind: char,
    max_count: nat,
    mutation: MutationType,
    pick: int,
)
    ensures
        ({
            let (g2, e2, c2) = entity_round(g, empty, cells, kind, max_count, mutation, pick);
            &&& mutation == MutationType::Add && cells.len() < max_count && empty.len() > 0 && 0 <= pick
                < empty.len() ==> {
                &&& c2.len() == cells.len() + 1
                &&& e2.len() == empty.len() - 1
                &&& c2 == cells.push(empty[pick])
                &&& e2 == empty.remove(pick)
                &&& g2 == g.update(empty[pick].0 as int, g[empty[pick].0 as int].update(empty[pick].1 as int, kind))
            }
            &&& mutation == MutationType::Add && (cells.len() >= max_count || empty.len() == 0) ==> g2 == g && e2
                == empty && c2 == cells
            &&& mutation == MutationType::Remove && cells.len() > 0 && 0 <= pick < cells.len() ==> {
                &&& c2.len() == cells.len() - 1
                &&& e2.len() == empty.len() + 1
                &&& c2 == cells.remove(pick)
                &&& e2 == empty.push(cells[pick])
                &&& g2 == g.update(cells[pick].0 as int, g[cells[pick].0 as int].update(cells[pick].1 as int, '.'))
            }
            &&& mutation == MutationType::Remove && cells.len() == 0 ==> g2 == g && e2 == empty && c2 == cells
            &&& mutation == MutationType::Nothing ==> g2 == g && e2 == empty && c2 == cells
        }),
        mutation == MutationType::Add && cells.len() < max_count && empty.len() > 0 ==> entity_counts(
            empty.len(),
            cells.len(),
            max_count,
            mutation,
        ) == ((empty.len() - 1) as nat, cells.len() + 1),
        mutation == MutationType::Add && cells.len() >= max_count ==> entity_counts(
            empty.len(),
            cells.len(),
            max_count,
            mutation,
        ) == (empty.len(), cells.len()),
        mutation == MutationType::Remove && cells.len() > 0 ==> entity_counts(
            empty.len(),
            cells.len(),
            max_count,
            mutation,
        ) == (empty.len() + 1, (cells.len() - 1) as nat),
{
}

/// One mutation of the enemies (`kind` `E`) or the traps (`kind` `T`),
/// with the cell drawn: `Add` turns the empty cell at position `pick` of its
/// list into one while there are fewer than `max_count`; `Remove` turns the
/// one at position `pick` of the entity's list into empty floor while there
/// is any; otherwise nothing changes.
pub fn apply_entity_mutation(
    grid: &mut Vec<Vec<char>>,
    ix: &mut CellIndex,
    height: usize,
    width: usize,
    kind: char,
    max_count: usize,
    mutation: MutationType,
    pick: usize,
)
    requires
        kind == 'E' || kind == 'T',
        grid_shape(rows_view(old(grid)@), height, width),
        index_sound(rows_view(old(grid)@), height, width, *old(ix)),
        entity_adds(old(ix).empty@.len(), old(ix).cells_of(kind).len(), max_count as nat, mutation) ==> pick
            < old(ix).empty@.len(),
        entity_removes(old(ix).cells_of(kind).len(), mutation) ==> pick < old(ix).cells_of(kind).len(),
    ensures
        grid_shape(rows_view(final(grid)@), height, width),
        index_sound(rows_view(final(grid)@), height, width, *final(ix)),
        forall|d: char| d != '.' && d != kind ==> #[trigger] final(ix).cells_of(d) == old(ix).cells_of(d),
        if entity_adds(old(ix).empty@.len(), old(ix).cells_of(kind).len(), max_count as nat, mutation) {
            let p = old(ix).empty@[pick as int];
            &&& final(ix).empty@ == old(ix).empty@.remove(pick as int)
            &&& final(ix).cells_of(kind) == old(ix).cells_of(kind).push(p)
            &&& rows_view(final(grid)@) == put(rows_view(old(grid)@), p, kind)
        } else if entity_removes(old(ix).cells_of(kind).len(), mutation) {
            let p = old(ix).cells_of(kind)[pick as int];
            &&& final(ix).cells_of(kind) == old(ix).cells_of(kind).remove(pick as int)
            &&& final(ix).empty@ == old(ix).empty@.push(p)
            &&& rows_view(final(grid)@) == put(rows_view(old(grid)@), p, '.')
        } else {
            &&& *final(ix) == *old(ix)
            &&& final(grid)@ == old(grid)@
        },
        forall|c: char|
            tracked_char(c) && index_complete_for(rows_view(old(grid)@), height, width, *old(ix), c)
                ==> index_complete_for(rows_view(final(grid)@), height, width, *final(ix), c),
        changed_only_among(rows_view(old(grid)@), rows_view(final(grid)@), height, width, set!['.', kind]),
        (rows_view(final(grid)@), final(ix).empty@, final(ix).cells_of(kind)) == entity_round(
            rows_view(old(grid)@),
            old(ix).empty@,
            old(ix).cells_of(kind),
            kind,
            max_count as nat,
            mutation,
            pick as int,
        ),
{
    let ghost ix0 = *ix;
    let count = count_of(ix, kind);
    if mutation == MutationType::Add && count < max_count && ix.empty.len() > 0 {
        let _ = move_cell(grid, ix, height, width, '.', kind, pick);
        proof {
            assert(ix.cells_of('.') == ix0.cells_of('.').remove(pick as int));
            assert(ix.cells_of(kind) == ix0.cells_of(kind).push(ix0.empty@[pick as int]));
            assert(set!['.', kind] =~= set!['.', kind]);
        }
    } else if mutation == MutationType::Remove && count > 0 {
        let _ = move_cell(grid, ix, height, width, kind, '.', pick);
        proof {
            assert(ix.cells_of(kind) == ix0.cells_of(kind).remove(pick as int));
            assert(ix.cells_of('.') == ix0.cells_of('.').push(ix0.cells_of(kind)[pick as int]));
            assert(set![kind, '.'] =~= set!['.', kind]);
        }
    } else {
        proof {
            lemma_changed_refl(rows_view(grid@), height, width, set!['.', kind]);
        }
    }
}

/// One mutation of the enemies (`kind` `E`) or traps (`kind` `T`), as in
/// `apply_entity_mutation`, at a cell drawn at random from the list it
/// takes from.
pub fn mutate_entity(
    grid: &mut Vec<Vec<char>>,
    ix: &mut CellIndex,
    height: usize,
    width: usize,
    kind: char,
    max_count: usize,
    mutation: MutationType,
)
    requires
        kind == 'E' || kind == 'T',
        grid_shape(rows_view(old(grid)@), height, width),
        index_sound(rows_view(old(grid)@), height, width, *old(ix)),
    ensures
        grid_shape(rows_view(final(grid)@), height, width),
        index_sound(rows_view(final(grid)@), height, width, *final(ix)),
        forall|d: char| d != '.' && d != kind ==> #[trigger] final(ix).cells_of(d) == old(ix).cells_of(d),
        (final(ix).empty@.len(), final(ix).cells_of(kind).len()) == entity_counts(
            old(ix).empty@.len(),
            old(ix).cells_of(kind).len(),
            max_count as nat,
            mutation,
        ),
        forall|c: char|
            tracked_char(c) && index_complete_for(rows_view(old(grid)@), height, width, *old(ix), c)
                ==> index_complete_for(rows_view(final(grid)@), height, width, *final(ix), c),
        changed_only_among(rows_view(old(grid)@), rows_view(final(grid)@), height, width, set!['.', kind]),
        exists|pick: int|
            {
                &&& entity_pick_fits(old(ix).empty@, old(ix).cells_of(kind), max_count as nat, mutation, pick)
                &&& (rows_view(final(grid)@), final(ix).empty@, final(ix).cells_of(kind)) == #[trigger] entity_round(
                    rows_view(old(grid)@),
                    old(ix).empty@,
                    old(ix).cells_of(kind),
                    kind,
                    max_count as nat,
                    mutation,
                    pick,
                )
            },
{
    let count = count_of(ix, kind);
    let pick = if mutation == MutationType::Add && count < max_count && ix.empty.len() > 0 {
        random_below(ix.empty.len())
    } else if mutation == MutationType::Remove && count > 0 {
        random_below(count)
    } else {
        0
    };
    let ghost ix0 = *ix;
    apply_entity_mutation(grid, ix, height, width, kind, max_count, mutation, pick);
    assert(entity_pick_fits(ix0.empty@, ix0.cells_of(kind), max_count as nat, mutation, pick as int));
}

/// The characters of the entities.
pub open spec fn entity_char(c: char) -> bool {
    c == 'P' || c == 'G' || c == 'E' || c == 'T'
}

/// A list with `from` replaced by `to` wherever it stands.
pub open spec fn replaced(s: Seq<(usize, usize)>, from: (usize, usize), to: (usize, usize)) -> Seq<(usize, usize)> {
    s.map_values(|q: (usize, usize)| if q == from { to } else { q })
}

/// Replaces the first occurrence of `from` in a list without repeats.
fn replace_in(v: &mut Vec<(usize, usize)>, from: (usize, usize), to: (usize, usize))
    requires
        old(v)@.no_duplicates(),
    ensures
        final(v)@ == replaced(old(v)@, from, to),
{
    let ghost v0 = v@;
    let mut k: usize = 0;
    while k < v.len()
        invariant
            k <= v@.len(),
            v@ == v0,
            v0.no_duplicates(),
            forall|j: int| 0 <= j < k ==> v0[j] != from,
        ensures
            k <= v@.len(),
            v@ == v0,
            forall|j: int| 0 <= j < k ==> v0[j] != from,
            k < v@.len() ==> v0[k as int] == from,
        decreases v@.len() - k,
    {
        let q = v[k];
        if q.0 == from.0 && q.1 == from.1 {
            break;
        }
        k = k + 1;
    }
    if k < v.len() {
        v.set(k, to);
        proof {
            assert(v0[k as int] == from);
            assert forall|j: int| 0 <= j < v0.len() && j != k implies v0[j] != from by {
                assert(v0[j] != v0[k as int]);
            }
        }
    }
    assert(v@ =~= replaced(v0, from, to));
}

/// Replaces `from` by `to` in the list of the entity character `c`.
fn replace_cell(ix: &mut CellIndex, c: char, from: (usize, usize), to: (usize, usize))
    requires
        entity_char(c),
        old(ix).cells_of(c).no_duplicates(),
    ensures
        forall|d: char|
            #[trigger] final(ix).cells_of(d) == if d == c { replaced(old(ix).cells_of(d), from, to) } else { old(ix).cells_of(d) },
{
    if c == 'P' {
        replace_in(&mut ix.players, from, to);
    } else if c == 'G' {
        replace_in(&mut ix.goals, from, to);
    } else if c == 'E' {
        replace_in(&mut ix.enemies, from, to);
    } else {
        replace_in(&mut ix.traps, from, to);
    }
}

/// A grid with its empty-floor list and the players', goals', enemies' and
/// traps' lists.
pub type Placement = (
    Seq<Seq<char>>,
    Seq<(usize, usize)>,
    Seq<(usize, usize)>,
    Seq<(usize, usize)>,
    Seq<(usize, usize)>,
    Seq<(usize, usize)>,
);

/// The placement of a grid and an index.
pub open spec fn placement(g: Seq<Seq<char>>, ix: CellIndex) -> Placement {
    (g, ix.empty@, ix.players@, ix.goals@, ix.enemies@, ix.traps@)
}

/// The list of the entity character `c` in a placement.
pub open spec fn entity_cells(s: Placement, c: char) -> Seq<(usize, usize)> {
    if c == 'P' {
        s.2
    } else if c == 'G' {
        s.3
    } else if c == 'E' {
        s.4
    } else if c == 'T' {
        s.5
    } else {
        Seq::empty()
    }
}

/// A placement with the list of the entity character `c` replaced.
pub open spec fn with_entity_cells(s: Placement, c: char, cells: Seq<(usize, usize)>) -> Placement {
    if c == 'P' {
        (s.0, s.1, cells, s.3, s.4, s.5)
    } else if c == 'G' {
        (s.0, s.1, s.2, cells, s.4, s.5)
    } else if c == 'E' {
        (s.0, s.1, s.2, s.3, cells, s.5)
    } else if c == 'T' {
        (s.0, s.1, s.2, s.3, s.4, cells)
    } else {
        s
    }
}

/// One entity moved: its cell becomes floor, the empty cell at position
/// `pick` takes its character and its place in its list, and leaves the
/// empty-floor list.
pub open spec fn reposition_round(s: Placement, entity: (char, (usize, usize)), pick: int) -> Placement {
    let to = s.1[pick];
    with_entity_cells(
        (put(put(s.0, entity.1, '.'), to, entity.0), s.1.remove(pick), s.2, s.3, s.4, s.5),
        entity.0,
        replaced(entity_cells(s, entity.0), entity.1, to),
    )
}

/// Moving an entity takes it from its cell, which becomes floor, to the
/// picked empty cell, which takes its character and leaves the empty-floor
/// list; its list names the new cell in place of the old one; every other
/// cell and list stays as it was.
pub proof fn lemma_reposition_round_effect(s: Placement, ch: char, from: (usize, usize), pick: int)
    requires
        ch == 'P' || ch == 'G' || ch == 'E' || ch == 'T',
        0 <= pick < s.1.len(),
        from != s.1[pick],
        from.0 < s.0.len(),
        from.1 < s.0[from.0 as int].len(),
        s.1[pick].0 < s.0.len(),
        s.1[pick].1 < s.0[s.1[pick].0 as int].len(),
    ensures
        ({
            let to = s.1[pick];
            let r = reposition_round(s, (ch, from), pick);
            &&& r.0.len() == s.0.len()
            &&& r.0[to.0 as int][to.1 as int] == ch
            &&& r.0[from.0 as int][from.1 as int] == '.'
            &&& forall|a: int, b: int|
                0 <= a < s.0.len() && 0 <= b < s.0[a].len() && (a, b) != (from.0 as int, from.1 as int) && (a, b) != (
                    to.0 as int,
                    to.1 as int,
                ) ==> #[trigger] r.0[a][b] == s.0[a][b]
            &&& forall|a: int| 0 <= a < s.0.len() ==> (#[trigger] r.0[a]).len() == s.0[a].len()
            &&& r.1 == s.1.remove(pick)
            &&& entity_cells(r, ch).len() == entity_cells(s, ch).len()
            &&& forall|k: int|
                0 <= k < entity_cells(s, ch).len() ==> #[trigger] entity_cells(r, ch)[k] == if entity_cells(s, ch)[k]
                    == from {
                    to
                } else {
                    entity_cells(s, ch)[k]
                }
            &&& forall|d: char| d != ch ==> #[trigger] entity_cells(r, d) == entity_cells(s, d)
        }),
{
    let to = s.1[pick];
    let r = reposition_round(s, (ch, from), pick);
    let g1 = put(s.0, from, '.');
    assert(r.0 == put(g1, to, ch));
    assert(g1[from.0 as int][from.1 as int] == '.');
}

/// Entities moved one after the other, the `k`-th to the empty cell at
/// position `picks[k]` at its turn.
pub open spec fn repositions(s: Placement, moves: Seq<(char, (usize, usize))>, picks: Seq<int>) -> Placement
    decreases moves.len(),
{
    if moves.len() == 0 || picks.len() == 0 {
        s
    } else {
        reposition_round(repositions(s, moves.drop_last(), picks.drop_last()), moves.last(), picks.last())
    }
}

/// The moves name distinct cells, each on its character's list of the
/// placement, and each pick is a position of the empty-floor list at its
/// turn (the list loses one cell a turn).
pub open spec fn moves_fit(s: Placement, moves: Seq<(char, (usize, usize))>, picks: Seq<int>) -> bool {
    &&& picks.len() == moves.len()
    &&& forall|k: int|
        0 <= k < moves.len() ==> entity_char(#[trigger] moves[k].0) && entity_cells(s, moves[k].0).contains(moves[k].1)
    &&& forall|i: int, j: int| 0 <= i < moves.len() && 0 <= j < moves.len() && i != j ==> #[trigger] moves[i].1 != #[trigger] moves[j].1
    &&& forall|k: int| 0 <= k < picks.len() ==> 0 <= #[trigger] picks[k] < s.1.len() - k
}

/// The interior cells of a grid that hold `c`.
pub open spec fn cells_holding(g: Seq<Seq<char>>, height: usize, width: usize, c: char) -> Set<(usize, usize)> {
    Set::new(|p: (usize, usize)| is_interior(width, height, p) && char_at(g, p) == c)
}

proof fn lemma_cells_holding_finite(g: Seq<Seq<char>>, height: usize, width: usize, c: char)
    ensures
        cells_holding(g, height, width, c).finite(),
{
    lemma_grid_cells_finite(height, width);
    assert(cells_holding(g, height, width, c).subset_of(grid_cells(height as nat, width as nat)));
    vstd::set_lib::lemma_set_subset_finite(grid_cells(height as nat, width as nat), cells_holding(g, height, width, c));
}

/// Moving an entity from its cell `e` onto the floor cell `f` leaves the
/// interior with as many cells of every character as before.
proof fn lemma_move_keeps_counts(g: Seq<Seq<char>>, height: usize, width: usize, e: (usize, usize), f: (usize, usize), c: char)
    requires
        grid_shape(g, height, width),
        is_interior(width, height, e),
        is_interior(width, height, f),
        e != f,
        char_at(g, e) == c,
        c != '.',
        char_at(g, f) == '.',
    ensures
        forall|ch: char| count_cells(put(put(g, e, '.'), f, c), height, width, ch) == count_cells(g, height, width, ch),
{
    let g1 = put(put(g, e, '.'), f, c);
    assert(g[e.0 as int].len() + 1 >= width);
    assert(g[f.0 as int].len() + 1 >= width);
    assert forall|q: (usize, usize)| is_interior(width, height, q) implies #[trigger] char_at(g1, q) == if q == f {
        c
    } else if q == e {
        '.'
    } else {
        char_at(g, q)
    } by {
        assert(g[q.0 as int].len() + 1 >= width);
    }
    assert forall|ch: char| count_cells(g1, height, width, ch) == count_cells(g, height, width, ch) by {
        let s0 = cells_holding(g, height, width, ch);
        let s1 = cells_holding(g1, height, width, ch);
        lemma_cells_holding_finite(g, height, width, ch);
        assert(count_cells(g, height, width, ch) == s0.len());
        assert(count_cells(g1, height, width, ch) == s1.len());
        if ch == '.' {
            assert(s1 =~= s0.remove(f).insert(e));
            vstd::set::axiom_set_remove_len(s0, f);
            vstd::set::axiom_set_remove_finite(s0, f);
            vstd::set::axiom_set_insert_len(s0.remove(f), e);
        } else if ch == c {
            assert(s1 =~= s0.remove(e).insert(f));
            vstd::set::axiom_set_remove_len(s0, e);
            vstd::set::axiom_set_remove_finite(s0, e);
            vstd::set::axiom_set_insert_len(s0.remove(e), f);
        } else {
            assert(s1 =~= s0);
        }
    }
}

/// Moves one entity, given as its character and cell, to the empty cell at
/// position `pick` of the empty-floor list: its old cell becomes empty
/// floor, the new cell leaves the empty-floor list and takes the old one's
/// place in the entity's list. The old cell is not put back on the
/// empty-floor list.
pub fn apply_reposition(
    grid: &mut Vec<Vec<char>>,
    ix: &mut CellIndex,
    height: usize,
    width: usize,
    entity: (char, (usize, usize)),
    pick: usize,
)
    requires
        grid_shape(rows_view(old(grid)@), height, width),
        index_sound(rows_view(old(grid)@), height, width, *old(ix)),
        entity_char(entity.0),
        old(ix).cells_of(entity.0).contains(entity.1),
        pick < old(ix).empty@.len(),
    ensures
        final(ix).empty@ == old(ix).empty@.remove(pick as int),
        final(ix).cells_of(entity.0) == replaced(old(ix).cells_of(entity.0), entity.1, old(ix).empty@[pick as int]),
        forall|d: char| d != '.' && d != entity.0 ==> #[trigger] final(ix).cells_of(d) == old(ix).cells_of(d),
        rows_view(final(grid)@) == put(
            put(rows_view(old(grid)@), entity.1, '.'),
            old(ix).empty@[pick as int],
            entity.0,
        ),
        grid_shape(rows_view(final(grid)@), height, width),
        index_sound(rows_view(final(grid)@), height, width, *final(ix)),
        forall|c: char|
            tracked_char(c) && c != '.' && index_complete_for(rows_view(old(grid)@), height, width, *old(ix), c)
                ==> index_complete_for(rows_view(final(grid)@), height, width, *final(ix), c),
        changed_only_among(rows_view(old(grid)@), rows_view(final(grid)@), height, width, set!['.', entity.0]),
        placement(rows_view(final(grid)@), *final(ix)) == reposition_round(
            placement(rows_view(old(grid)@), *old(ix)),
            entity,
            pick as int,
        ),
        forall|ch: char|
            count_cells(rows_view(final(grid)@), height, width, ch) == count_cells(rows_view(old(grid)@), height, width, ch),
{
    let ghost g0 = rows_view(grid@);
    let ghost ix0 = *ix;
    let c = entity.0;
    let from = entity.1;
    proof {
        let k = choose|k: int| 0 <= k < ix0.cells_of(c).len() && ix0.cells_of(c)[k] == from;
        assert(is_interior(width, height, ix0.cells_of(c)[k]));
        assert(char_at(g0, from) == c);
    }
    let to = take_cell(ix, '.', pick);
    proof {
        assert(is_interior(width, height, ix0.cells_of('.')[pick as int]));
        assert(char_at(g0, to) == '.');
        assert(g0[from.0 as int].len() + 1 >= width);
        assert(g0[to.0 as int].len() + 1 >= width);
    }
    set_cell(grid, from, '.');
    proof {
        assert(to.0 < height);
        assert(rows_view(grid@).len() == grid@.len());
        assert(rows_view(grid@)[to.0 as int] == grid@[to.0 as int]@);
        assert(rows_view(grid@)[to.0 as int].len() == g0[to.0 as int].len());
    }
    set_cell(grid, to, c);
    let ghost ix1 = *ix;
    replace_cell(ix, c, from, to);
    proof {
        assert(ix.cells_of('.') == ix1.cells_of('.'));
        assert(ix1.cells_of('.') == ix0.cells_of('.').remove(pick as int));
        let g1 = rows_view(grid@);
        assert(g1[0] == g0[0]);
        assert forall|r: int| 1 <= r < height - 1 implies #[trigger] g1[r].len() + 1 >= width by {
            assert(g0[r].len() + 1 >= width);
        }
        assert(char_at(g1, to) == c);
        assert(char_at(g1, from) == '.');
        assert forall|q: (usize, usize)| is_interior(width, height, q) && q != from && q != to implies #[trigger] char_at(g1, q)
            == char_at(g0, q) by {
        }
        assert forall|d: char, k: int|
            tracked_char(d) && 0 <= k < ix.cells_of(d).len() implies is_interior(width, height, #[trigger] ix.cells_of(d)[k])
                && char_at(g1, ix.cells_of(d)[k]) == d by {
            if d == '.' {
                let j = if k < pick { k } else { k + 1 };
                assert(ix.cells_of(d)[k] == ix0.cells_of(d)[j]);
                assert(ix0.cells_of(d)[j] != ix0.cells_of(d)[pick as int]);
                assert(char_at(g0, ix0.cells_of(d)[j]) == '.');
            } else if d == c {
                let q = ix0.cells_of(d)[k];
                assert(char_at(g0, q) == c);
                if q == from {
                    assert(ix.cells_of(d)[k] == to);
                } else {
                    assert(ix.cells_of(d)[k] == q);
                }
            } else {
                assert(char_at(g0, ix0.cells_of(d)[k]) == d);
            }
        }
        assert forall|d: char| tracked_char(d) implies (#[trigger] ix.cells_of(d)).no_duplicates() by {
            let s = ix.cells_of(d);
            let s0 = ix0.cells_of(d);
            assert(s0.no_duplicates());
            assert forall|a: int, b: int| 0 <= a < s.len() && 0 <= b < s.len() && a != b implies s[a] != s[b] by {
                if d == '.' {
                    let ja = if a < pick { a } else { a + 1 };
                    let jb = if b < pick { b } else { b + 1 };
                    assert(s[a] == s0[ja]);
                    assert(s[b] == s0[jb]);
                } else if d == c {
                    assert(char_at(g0, s0[a]) == c);
                    assert(char_at(g0, s0[b]) == c);
                }
            }
        }
        assert forall|d: char|
            tracked_char(d) && d != '.' && index_complete_for(g0, height, width, ix0, d) implies index_complete_for(
            g1,
            height,
            width,
            *ix,
            d,
        ) by {
            assert forall|q: (usize, usize)| is_interior(width, height, q) && #[trigger] char_at(g1, q) == d implies ix.cells_of(
                d,
            ).contains(q) by {
                if q == to {
                    let k = choose|k: int| 0 <= k < ix0.cells_of(c).len() && ix0.cells_of(c)[k] == from;
                    assert(ix.cells_of(c)[k] == to);
                } else {
                    assert(q != from);
                    assert(char_at(g0, q) == d);
                    let k = choose|k: int| 0 <= k < ix0.cells_of(d).len() && ix0.cells_of(d)[k] == q;
                    assert(ix.cells_of(d)[k] == q);
                }
            }
        }
        assert forall|r: int, cc: int|
            0 <= r < g0.len() && 0 <= cc < g0[r].len() && #[trigger] g1[r][cc] != g0[r][cc] implies is_interior(
            width,
            height,
            (r as usize, cc as usize),
        ) && set!['.', c].contains(g0[r][cc]) && set!['.', c].contains(g1[r][cc]) by {
            assert((r == from.0 && cc == from.1) || (r == to.0 && cc == to.1));
        }
        let s0 = placement(g0, ix0);
        let to = ix0.empty@[pick as int];
        assert(entity_cells(s0, c) == ix0.cells_of(c));
        assert(ix.players@ == ix.cells_of('P'));
        assert(ix.goals@ == ix.cells_of('G'));
        assert(ix.enemies@ == ix.cells_of('E'));
        assert(ix.traps@ == ix.cells_of('T'));
        assert(ix0.players@ == ix0.cells_of('P'));
        assert(ix0.goals@ == ix0.cells_of('G'));
        assert(ix0.enemies@ == ix0.cells_of('E'));
        assert(ix0.traps@ == ix0.cells_of('T'));
        assert(ix.empty@ == ix0.empty@.remove(pick as int));
        assert(placement(rows_view(grid@), *ix) == reposition_round(s0, entity, pick as int));
        assert(is_interior(width, height, ix0.cells_of('.')[pick as int]));
        lemma_move_keeps_counts(g0, height, width, from, to, c);
    }
}

proof fn lemma_changed_widen(
    g0: Seq<Seq<char>>,
    g1: Seq<Seq<char>>,
    height: usize,
    width: usize,
    a: Set<char>,
    b: Set<char>,
)
    requires
        changed_only_among(g0, g1, height, width, a),
        a.subset_of(b),
    ensures
        changed_only_among(g0, g1, height, width, b),
{
}

/// A list's cells, each tagged with the character `c`.
pub open spec fn tagged(s: Seq<(usize, usize)>, c: char) -> Seq<(char, (usize, usize))> {
    s.map_values(|p: (usize, usize)| (c, p))
}

/// Every entity of the index as its character and cell: the players, then
/// the goals, the enemies and the traps, each in its list's order.
pub open spec fn entity_list(ix: CellIndex) -> Seq<(char, (usize, usize))> {
    tagged(ix.players@, 'P') + tagged(ix.goals@, 'G') + tagged(ix.enemies@, 'E') + tagged(ix.traps@, 'T')
}

/// How many entities the index lists.
pub open spec fn entity_total(ix: CellIndex) -> nat {
    ix.players@.len() + ix.goals@.len() + ix.enemies@.len() + ix.traps@.len()
}

/// Each item names an entity character and a cell on that character's
/// list, and no two items share a cell.
pub open spec fn distinct_entities(ix: CellIndex, all: Seq<(char, (usize, usize))>) -> bool {
    &&& forall|i: int| 0 <= i < all.len() ==> entity_char(#[trigger] all[i].0) && ix.cells_of(all[i].0).contains(all[i].1)
    &&& forall|i: int, j: int| 0 <= i < all.len() && 0 <= j < all.len() && i != j ==> #[trigger] all[i].1 != #[trigger] all[j].1
}

/// Appends the cells of `c`'s list, tagged with `c`.
fn append_entities(
    all: &mut Vec<(char, (usize, usize))>,
    ix: &CellIndex,
    c: char,
    Ghost(g): Ghost<Seq<Seq<char>>>,
    Ghost(height): Ghost<usize>,
    Ghost(width): Ghost<usize>,
)
    requires
        entity_char(c),
        index_sound(g, height, width, *ix),
        distinct_entities(*ix, old(all)@),
        forall|i: int| 0 <= i < old(all)@.len() ==> (#[trigger] old(all)@[i]).0 != c,
    ensures
        final(all)@ == old(all)@ + tagged(ix.cells_of(c), c),
        distinct_entities(*ix, final(all)@),
{
    let ghost a0 = all@;
    let list: &Vec<(usize, usize)> = if c == 'P' {
        &ix.players
    } else if c == 'G' {
        &ix.goals
    } else if c == 'E' {
        &ix.enemies
    } else {
        &ix.traps
    };
    assert(list@ == ix.cells_of(c));
    let mut k: usize = 0;
    while k < list.len()
        invariant
            k <= list@.len(),
            list@ == ix.cells_of(c),
            entity_char(c),
            index_sound(g, height, width, *ix),
            all@ == a0 + tagged(list@.take(k as int), c),
            distinct_entities(*ix, all@),
            forall|i: int| 0 <= i < a0.len() ==> (#[trigger] a0[i]).0 != c,
        decreases list@.len() - k,
    {
        let p = list[k];
        proof {
            assert(char_at(g, p) == c);
            assert forall|i: int| 0 <= i < all@.len() implies (#[trigger] all@[i]).1 != p by {
                if i < a0.len() {
                    assert(all@[i] == a0[i]);
                    assert(ix.cells_of(a0[i].0).contains(a0[i].1));
                    let j = choose|j: int| 0 <= j < ix.cells_of(a0[i].0).len() && ix.cells_of(a0[i].0)[j] == a0[i].1;
                    assert(char_at(g, ix.cells_of(a0[i].0)[j]) == a0[i].0);
                } else {
                    assert(all@[i] == (c, list@[i - a0.len()]));
                    assert(ix.cells_of(c).no_duplicates());
                }
            }
        }
        all.push((c, p));
        proof {
            assert(list@.take(k + 1) =~= list@.take(k as int).push(p));
            assert(tagged(list@.take(k + 1), c) =~= tagged(list@.take(k as int), c).push((c, p)));
            assert(all@ =~= a0 + tagged(list@.take(k + 1), c));
            assert(ix.cells_of(c)[k as int] == p);
        }
        k = k + 1;
    }
    assert(list@.take(k as int) =~= list@);
}

/// Every entity of the index with its character, in the order of
/// `entity_list`.
fn gather_entities(
    ix: &CellIndex,
    Ghost(g): Ghost<Seq<Seq<char>>>,
    Ghost(height): Ghost<usize>,
    Ghost(width): Ghost<usize>,
) -> (all: Vec<(char, (usize, usize))>)
    requires
        index_sound(g, height, width, *ix),
    ensures
        all@ == entity_list(*ix),
        all@.len() == entity_total(*ix),
        distinct_entities(*ix, all@),
{
    let mut all: Vec<(char, (usize, usize))> = Vec::new();
    append_entities(&mut all, ix, 'P', Ghost(g), Ghost(height), Ghost(width));
    append_entities(&mut all, ix, 'G', Ghost(g), Ghost(height), Ghost(width));
    append_entities(&mut all, ix, 'E', Ghost(g), Ghost(height), Ghost(width));
    append_entities(&mut all, ix, 'T', Ghost(g), Ghost(height), Ghost(width));
    assert(all@ =~= entity_list(*ix));
    all
}

/// Moves `n` distinct entities, drawn at random, each to an empty cell
/// drawn at random (see `apply_reposition`). Which entities move, and
/// where, is left to chance; every list but the empty-floor one keeps its
/// length, and that one loses `n` cells.
pub fn mutate_repositions(grid: &mut Vec<Vec<char>>, ix: &mut CellIndex, height: usize, width: usize, n: usize)
    requires
        grid_shape(rows_view(old(grid)@), height, width),
        index_sound(rows_view(old(grid)@), height, width, *old(ix)),
        n <= entity_total(*old(ix)),
        n <= old(ix).empty@.len(),
    ensures
        grid_shape(rows_view(final(grid)@), height, width),
        index_sound(rows_view(final(grid)@), height, width, *final(ix)),
        final(ix).empty@.len() == old(ix).empty@.len() - n,
        final(ix).walls@ == old(ix).walls@,
        final(ix).players@.len() == old(ix).players@.len(),
        final(ix).goals@.len() == old(ix).goals@.len(),
        final(ix).enemies@.len() == old(ix).enemies@.len(),
        final(ix).traps@.len() == old(ix).traps@.len(),
        forall|c: char|
            tracked_char(c) && c != '.' && index_complete_for(rows_view(old(grid)@), height, width, *old(ix), c)
                ==> index_complete_for(rows_view(final(grid)@), height, width, *final(ix), c),
        changed_only_among(
            rows_view(old(grid)@),
            rows_view(final(grid)@),
            height,
            width,
            set!['.', 'P', 'G', 'E', 'T'],
        ),
        forall|ch: char|
            count_cells(rows_view(final(grid)@), height, width, ch) == count_cells(rows_view(old(grid)@), height, width, ch),
        exists|moves: Seq<(char, (usize, usize))>, picks: Seq<int>|
            {
                &&& moves.len() == n
                &&& #[trigger] moves_fit(placement(rows_view(old(grid)@), *old(ix)), moves, picks)
                &&& placement(rows_view(final(grid)@), *final(ix)) == repositions(
                    placement(rows_view(old(grid)@), *old(ix)),
                    moves,
                    picks,
                )
            },
{
    let ghost g0 = rows_view(grid@);
    let ghost ix0 = *ix;
    let ghost moves = set!['.', 'P', 'G', 'E', 'T'];
    let all = gather_entities(ix, Ghost(rows_view(grid@)), Ghost(height), Ghost(width));
    let mut selected = choose_several(&all, n);
    proof {
        let idx = choose|idx: Seq<int>|
            #![trigger idx.len()]
            idx.len() == selected@.len() && idx.no_duplicates() && forall|k: int|
                0 <= k < idx.len() ==> 0 <= #[trigger] idx[k] < all@.len() && selected@[k] == all@[idx[k]];
        assert forall|i: int| 0 <= i < selected@.len() implies entity_char(#[trigger] selected@[i].0) && ix.cells_of(
            selected@[i].0,
        ).contains(selected@[i].1) by {
            assert(0 <= idx[i] < all@.len());
            assert(selected@[i] == all@[idx[i]]);
        }
        assert forall|i: int, j: int|
            0 <= i < selected@.len() && 0 <= j < selected@.len() && i != j implies #[trigger] selected@[i].1
            != #[trigger] selected@[j].1 by {
            assert(0 <= idx[i] < all@.len());
            assert(0 <= idx[j] < all@.len());
            assert(idx[i] != idx[j]);
            assert(all@[idx[i]].1 != all@[idx[j]].1);
        }
        lemma_changed_refl(g0, height, width, moves);
    }
    let ghost sel0 = selected@;
    let ghost p0 = placement(g0, ix0);
    let ghost mut done: Seq<(char, (usize, usize))> = seq![];
    let ghost mut picks: Seq<int> = seq![];
    assert(sel0.take(n as int) =~= sel0);
    let mut k: usize = 0;
    while k < n
        invariant
            k <= n,
            selected@.len() == n - k,
            n <= ix0.empty@.len(),
            ix.empty@.len() == ix0.empty@.len() - k,
            ix.walls@ == ix0.walls@,
            ix.players@.len() == ix0.players@.len(),
            ix.goals@.len() == ix0.goals@.len(),
            ix.enemies@.len() == ix0.enemies@.len(),
            ix.traps@.len() == ix0.traps@.len(),
            grid_shape(rows_view(grid@), height, width),
            index_sound(rows_view(grid@), height, width, *ix),
            distinct_entities(*ix, selected@),
            forall|c: char|
                tracked_char(c) && c != '.' && index_complete_for(g0, height, width, ix0, c) ==> index_complete_for(
                    rows_view(grid@),
                    height,
                    width,
                    *ix,
                    c,
                ),
            moves == set!['.', 'P', 'G', 'E', 'T'],
            changed_only_among(g0, rows_view(grid@), height, width, moves),
            sel0.len() == n,
            distinct_entities(ix0, sel0),
            p0 == placement(g0, ix0),
            selected@ == sel0.take(n - k),
            done.len() == k,
            picks.len() == k,
            forall|j: int| 0 <= j < k ==> #[trigger] done[j] == sel0[n - 1 - j],
            forall|j: int| 0 <= j < k ==> 0 <= #[trigger] picks[j] < ix0.empty@.len() - j,
            placement(rows_view(grid@), *ix) == repositions(p0, done, picks),
            forall|ch: char| count_cells(rows_view(grid@), height, width, ch) == count_cells(g0, height, width, ch),
        decreases n - k,
    {
        let ghost g1 = rows_view(grid@);
        let ghost ix1 = *ix;
        let ghost sel1 = selected@;
        let entity = selected.pop().unwrap();
        assert(entity == sel0[n - 1 - k]);
        assert(selected@ =~= sel0.take(n - k - 1));
        proof {
            assert(entity == sel1[sel1.len() - 1]);
            assert(entity_char(sel1[sel1.len() - 1].0));
        }
        let pick = random_below(ix.empty.len());
        apply_reposition(grid, ix, height, width, entity, pick);
        proof {
            let d2 = done.push(entity);
            let p2 = picks.push(pick as int);
            assert(d2.drop_last() =~= done);
            assert(p2.drop_last() =~= picks);
            assert(repositions(p0, d2, p2) == reposition_round(repositions(p0, done, picks), entity, pick as int));
            assert forall|j: int| 0 <= j < k + 1 implies #[trigger] d2[j] == sel0[n - 1 - j] by {
                if j < k {
                    assert(d2[j] == done[j]);
                }
            }
            assert forall|j: int| 0 <= j < k + 1 implies 0 <= #[trigger] p2[j] < ix0.empty@.len() - j by {
                if j < k {
                    assert(p2[j] == picks[j]);
                }
            }
            done = d2;
            picks = p2;
            assert forall|i: int| 0 <= i < selected@.len() implies entity_char(#[trigger] selected@[i].0) && ix.cells_of(
                selected@[i].0,
            ).contains(selected@[i].1) by {
                let q = selected@[i];
                assert(q == sel1[i]);
                assert(q.1 != entity.1);
                assert(ix1.cells_of(q.0).contains(q.1));
                let j = choose|j: int| 0 <= j < ix1.cells_of(q.0).len() && ix1.cells_of(q.0)[j] == q.1;
                if q.0 == entity.0 {
                    assert(ix.cells_of(q.0)[j] == q.1);
                } else {
                    assert(ix.cells_of(q.0) == ix1.cells_of(q.0));
                }
            }
            assert forall|i: int, j: int|
                0 <= i < selected@.len() && 0 <= j < selected@.len() && i != j implies #[trigger] selected@[i].1
                != #[trigger] selected@[j].1 by {
                assert(selected@[i] == sel1[i]);
                assert(selected@[j] == sel1[j]);
            }
            assert(ix.cells_of('#') == ix1.cells_of('#'));
            assert(ix.cells_of('P').len() == ix1.cells_of('P').len());
            assert(ix.cells_of('G').len() == ix1.cells_of('G').len());
            assert(ix.cells_of('E').len() == ix1.cells_of('E').len());
            assert(ix.cells_of('T').len() == ix1.cells_of('T').len());
            lemma_changed_widen(g1, rows_view(grid@), height, width, set!['.', entity.0], moves);
            lemma_changed_trans(g0, g1, rows_view(grid@), height, width, moves, moves);
            assert(moves + moves =~= moves);
        }
        k = k + 1;
    }
    proof {
        assert(moves_fit(p0, done, picks)) by {
            assert forall|m: int| 0 <= m < done.len() implies entity_char(#[trigger] done[m].0) && entity_cells(p0, done[m].0).contains(done[m].1) by {
                assert(done[m] == sel0[n - 1 - m]);
                assert(entity_char(sel0[n - 1 - m].0));
                let c = done[m].0;
                assert(entity_cells(p0, c) == ix0.cells_of(c));
            }
            assert forall|a: int, b: int| 0 <= a < done.len() && 0 <= b < done.len() && a != b implies #[trigger] done[a].1 != #[trigger] done[b].1 by {
                assert(done[a] == sel0[n - 1 - a]);
                assert(done[b] == sel0[n - 1 - b]);
            }
        }
    }
}

/// A mutation with its random rolls for the enemies and traps made: how
/// many wall mutations, the most interior walls the density cap allows,
/// what happens to the enemies and to the traps with their caps, and how
/// many entities move.
#[derive(Clone, Copy, Debug)]
pub struct MutationPlan {
    pub n_wall_mutations: usize,
    pub max_walls: usize,
    pub max_enemies: usize,
    pub enemy_mutation: MutationType,
    pub max_traps: usize,
    pub trap_mutation: MutationType,
    pub n_repositions: usize,
}

/// How many interior cells of the grid hold `c`.
pub open spec fn count_cells(g: Seq<Seq<char>>, height: usize, width: usize, c: char) -> nat {
    Set::new(|p: (usize, usize)| is_interior(width, height, p) && char_at(g, p) == c).len()
}

/// The number of rows of a layout.
pub open spec fn layout_height(text: Seq<char>) -> usize {
    char_rows(text).len() as usize
}

/// The length of a layout's first row.
pub open spec fn layout_width(text: Seq<char>) -> usize {
    char_rows(text)[0].len() as usize
}

/// How many interior cells hold empty floor, walls, enemies and traps after
/// the wall and entity steps of a plan, from a grid's counts.
pub open spec fn planned_counts(g: Seq<Seq<char>>, height: usize, width: usize, plan: MutationPlan) -> (nat, nat, nat, nat) {
    let (e1, w1) = wall_counts(
        count_cells(g, height, width, '.'),
        count_cells(g, height, width, '#'),
        plan.n_wall_mutations as nat,
        plan.max_walls as nat,
    );
    let (e2, en2) = entity_counts(e1, count_cells(g, height, width, 'E'), plan.max_enemies as nat, plan.enemy_mutation);
    let (e3, t3) = entity_counts(e2, count_cells(g, height, width, 'T'), plan.max_traps as nat, plan.trap_mutation);
    (e3, w1, en2, t3)
}

/// A layout the plan can mutate: at least two rows, a first row at least
/// two long, rows that reach every interior cell, and, after the wall and
/// entity steps, as many entities and as many empty cells as the plan
/// moves.
pub open spec fn mutation_fits(text: Seq<char>, plan: MutationPlan) -> bool {
    let g = char_rows(text);
    let h = layout_height(text);
    let w = layout_width(text);
    let counts = planned_counts(g, h, w, plan);
    &&& g.len() >= 2
    &&& grid_shape(g, h, w)
    &&& plan.n_repositions <= count_cells(g, h, w, 'P') + count_cells(g, h, w, 'G') + counts.2 + counts.3
    &&& plan.n_repositions <= counts.0
}

/// The larger of two counts.
pub open spec fn cap_of(count: nat, cap: nat) -> nat {
    if count <= cap {
        cap
    } else {
        count
    }
}

proof fn lemma_wall_counts_capped(empty: nat, walls: nat, n: nat, max_walls: nat)
    ensures
        wall_counts(empty, walls, n, max_walls).1 <= cap_of(walls, max_walls),
    decreases n,
{
    if n > 0 {
        lemma_wall_counts_capped(empty, walls, (n - 1) as nat, max_walls);
    }
}

/// Mutations respect their caps: after the wall and entity steps of a
/// plan, the interior holds no more walls than `max_walls`, enemies than
/// `max_enemies` and traps than `max_traps`, or, where the layout already
/// held more, no more than it held.
pub proof fn lemma_mutation_respects_caps(g: Seq<Seq<char>>, height: usize, width: usize, plan: MutationPlan)
    ensures
        planned_counts(g, height, width, plan).1 <= cap_of(count_cells(g, height, width, '#'), plan.max_walls as nat),
        planned_counts(g, height, width, plan).2 <= cap_of(count_cells(g, height, width, 'E'), plan.max_enemies as nat),
        planned_counts(g, height, width, plan).3 <= cap_of(count_cells(g, height, width, 'T'), plan.max_traps as nat),
{
    lemma_wall_counts_capped(
        count_cells(g, height, width, '.'),
        count_cells(g, height, width, '#'),
        plan.n_wall_mutations as nat,
        plan.max_walls as nat,
    );
}

/// `ix` is the index of the grid: sound, complete for every tracked
/// character, each list in row-major order (so it is the one
/// `index_cells` builds).
pub open spec fn is_index_of(g: Seq<Seq<char>>, height: usize, width: usize, ix: CellIndex) -> bool {
    &&& index_sound(g, height, width, ix)
    &&& forall|c: char| tracked_char(c) ==> index_complete_for(g, height, width, ix, c)
    &&& forall|c: char| tracked_char(c) ==> row_major(#[trigger] ix.cells_of(c))
}

/// The placement after the wall rounds, the enemy mutation and the trap
/// mutation of a plan, with the given picks, from a grid and its index.
pub open spec fn plan_before_moves(
    g: Seq<Seq<char>>,
    ix: CellIndex,
    plan: MutationPlan,
    wall_picks: Seq<int>,
    enemy_pick: int,
    trap_pick: int,
) -> Placement {
    let s1 = wall_rounds(g, ix.empty@, ix.walls@, plan.max_walls as nat, wall_picks);
    let s2 = entity_round(s1.0, s1.1, ix.enemies@, 'E', plan.max_enemies as nat, plan.enemy_mutation, enemy_pick);
    let s3 = entity_round(s2.0, s2.1, ix.traps@, 'T', plan.max_traps as nat, plan.trap_mutation, trap_pick);
    (s3.0, s3.1, ix.players@, ix.goals@, s2.2, s3.2)
}

/// The picks of the wall, enemy and trap steps fit their rounds.
pub open spec fn plan_picks_fit(
    g: Seq<Seq<char>>,
    ix: CellIndex,
    plan: MutationPlan,
    wall_picks: Seq<int>,
    enemy_pick: int,
    trap_pick: int,
) -> bool {
    let s1 = wall_rounds(g, ix.empty@, ix.walls@, plan.max_walls as nat, wall_picks);
    let s2 = entity_round(s1.0, s1.1, ix.enemies@, 'E', plan.max_enemies as nat, plan.enemy_mutation, enemy_pick);
    &&& wall_picks.len() == plan.n_wall_mutations
    &&& wall_picks_fit(g, ix.empty@, ix.walls@, plan.max_walls as nat, wall_picks)
    &&& entity_pick_fits(s1.1, ix.enemies@, plan.max_enemies as nat, plan.enemy_mutation, enemy_pick)
    &&& entity_pick_fits(s2.1, ix.traps@, plan.max_traps as nat, plan.trap_mutation, trap_pick)
}

/// `g1` is the grid of `text` after the plan: from the index of the grid,
/// `n_wall_mutations` wall rounds, one enemy mutation, one trap mutation,
/// then `n_repositions` distinct entities each moved to a distinct cell
/// that held floor, all with some picks that fit.
pub open spec fn plan_result(text: Seq<char>, plan: MutationPlan, g1: Seq<Seq<char>>) -> bool {
    let g = char_rows(text);
    let h = layout_height(text);
    let w = layout_width(text);
    exists|ix: CellIndex, wp: Seq<int>, ep: int, tp: int, moves: Seq<(char, (usize, usize))>, rp: Seq<int>|
        {
            &&& is_index_of(g, h, w, ix)
            &&& plan_picks_fit(g, ix, plan, wp, ep, tp)
            &&& moves.len() == plan.n_repositions
            &&& moves_fit(plan_before_moves(g, ix, plan, wp, ep, tp), moves, rp)
            &&& g1 == (#[trigger] repositions(plan_before_moves(g, ix, plan, wp, ep, tp), moves, rp)).0
        }
}

/// `mutated` is `text` after the plan (see `plan_result`), rows joined by
/// line feeds; so the rows and row lengths are the same, the border and
/// every cell that holds none of `.#PGET` are unchanged, the counts of
/// walls, enemies and traps are those of `planned_counts`, and there are
/// as many players and goals as before.
pub open spec fn is_mutation_of(text: Seq<char>, mutated: Seq<char>, plan: MutationPlan) -> bool {
    let g = char_rows(text);
    let h = layout_height(text);
    let w = layout_width(text);
    let counts = planned_counts(g, h, w, plan);
    exists|g1: Seq<Seq<char>>|
        {
            &&& mutated == #[trigger] joined(g1)
            &&& changed_only_among(g, g1, h, w, set!['.', '#', 'P', 'G', 'E', 'T'])
            &&& count_cells(g1, h, w, '#') == counts.1
            &&& count_cells(g1, h, w, 'E') == counts.2
            &&& count_cells(g1, h, w, 'T') == counts.3
            &&& count_cells(g1, h, w, 'P') == count_cells(g, h, w, 'P')
            &&& count_cells(g1, h, w, 'G') == count_cells(g, h, w, 'G')
            &&& plan_result(text, plan, g1)
        }
}

/// A complete, sound list counts the cells that hold its character.
proof fn lemma_count_is_len(g: Seq<Seq<char>>, height: usize, width: usize, ix: CellIndex, c: char)
    requires
        tracked_char(c),
        index_sound(g, height, width, ix),
        index_complete_for(g, height, width, ix, c),
    ensures
        count_cells(g, height, width, c) == ix.cells_of(c).len(),
{
    let s = ix.cells_of(c);
    assert(s.no_duplicates());
    s.unique_seq_to_set();
    assert forall|p: (usize, usize)| s.to_set().contains(p) <==> is_interior(width, height, p) && char_at(g, p) == c by {
        if s.contains(p) {
            let k = choose|k: int| 0 <= k < s.len() && s[k] == p;
            assert(is_interior(width, height, s[k]));
        }
    }
    assert(s.to_set() =~= Set::new(|p: (usize, usize)| is_interior(width, height, p) && char_at(g, p) == c));
}

/// The grid of a layout's lines.
proof fn lemma_grid_of_layout(grid: Seq<Vec<char>>, text: Seq<char>)
    requires
        grid.len() == char_rows(text).len(),
        forall|i: int| 0 <= i < grid.len() ==> #[trigger] grid[i]@ == char_rows(text)[i],
    ensures
        rows_view(grid) == char_rows(text),
{
    assert(rows_view(grid) =~= char_rows(text));
}

/// The layout after one mutation by the plan: the wall mutations, one
/// enemy mutation, one trap mutation, then the repositions, each at cells
/// drawn at random; rows joined by line feeds.
pub fn mutate_layout(layout: &str, plan: &MutationPlan) -> (mutated: String)
    requires
        mutation_fits(layout@, *plan),
    ensures
        is_mutation_of(layout@, mutated@, *plan),
{
    let ghost g0 = char_rows(layout@);
    let mut grid = layout_to_chars(layout);
    proof {
        lemma_grid_of_layout(grid@, layout@);
    }
    let height = grid.len();
    let width = grid[0].len();
    assert(height == layout_height(layout@) && width == layout_width(layout@));
    let mut ix = index_cells(&grid, height, width);
    let ghost ix0 = ix;
    proof {
        assert(tracked_char('.') && tracked_char('#') && tracked_char('P'));
        assert(tracked_char('G') && tracked_char('E') && tracked_char('T'));
        lemma_count_is_len(g0, height, width, ix, '.');
        lemma_count_is_len(g0, height, width, ix, '#');
        lemma_count_is_len(g0, height, width, ix, 'P');
        lemma_count_is_len(g0, height, width, ix, 'G');
        lemma_count_is_len(g0, height, width, ix, 'E');
        lemma_count_is_len(g0, height, width, ix, 'T');
    }
    mutate_walls(&mut grid, &mut ix, height, width, plan.n_wall_mutations, plan.max_walls);
    let ghost g1 = rows_view(grid@);
    let ghost ix1 = ix;
    let ghost wp = choose|picks: Seq<int>|
        {
            &&& picks.len() == plan.n_wall_mutations
            &&& wall_picks_fit(g0, ix0.empty@, ix0.walls@, plan.max_walls as nat, picks)
            &&& (g1, ix1.empty@, ix1.walls@) == #[trigger] wall_rounds(g0, ix0.empty@, ix0.walls@, plan.max_walls as nat, picks)
        };
    mutate_entity(&mut grid, &mut ix, height, width, 'E', plan.max_enemies, plan.enemy_mutation);
    let ghost g2 = rows_view(grid@);
    let ghost ix2 = ix;
    let ghost ep = choose|pick: int|
        {
            &&& entity_pick_fits(ix1.empty@, ix1.cells_of('E'), plan.max_enemies as nat, plan.enemy_mutation, pick)
            &&& (g2, ix2.empty@, ix2.cells_of('E')) == #[trigger] entity_round(
                g1,
                ix1.empty@,
                ix1.cells_of('E'),
                'E',
                plan.max_enemies as nat,
                plan.enemy_mutation,
                pick,
            )
        };
    proof {
        assert(ix2.cells_of('T') == ix1.cells_of('T'));
        assert(ix2.cells_of('#') == ix1.cells_of('#'));
    }
    mutate_entity(&mut grid, &mut ix, height, width, 'T', plan.max_traps, plan.trap_mutation);
    let ghost g3 = rows_view(grid@);
    let ghost ix3 = ix;
    let ghost tp = choose|pick: int|
        {
            &&& entity_pick_fits(ix2.empty@, ix2.cells_of('T'), plan.max_traps as nat, plan.trap_mutation, pick)
            &&& (g3, ix3.empty@, ix3.cells_of('T')) == #[trigger] entity_round(
                g2,
                ix2.empty@,
                ix2.cells_of('T'),
                'T',
                plan.max_traps as nat,
                plan.trap_mutation,
                pick,
            )
        };
    proof {
        assert(ix3.cells_of('E') == ix2.cells_of('E'));
        assert(ix3.cells_of('#') == ix2.cells_of('#'));
        assert(ix3.cells_of('P') == ix0.cells_of('P'));
        assert(ix3.cells_of('G') == ix0.cells_of('G'));
    }
    mutate_repositions(&mut grid, &mut ix, height, width, plan.n_repositions);
    let ghost g4 = rows_view(grid@);
    proof {
        let (moves, rp) = choose|moves: Seq<(char, (usize, usize))>, picks: Seq<int>|
            {
                &&& moves.len() == plan.n_repositions
                &&& #[trigger] moves_fit(placement(g3, ix3), moves, picks)
                &&& placement(g4, ix) == repositions(placement(g3, ix3), moves, picks)
            };
        assert(is_index_of(g0, height, width, ix0));
        assert(ix1.cells_of('E') == ix0.enemies@);
        assert(ix2.cells_of('T') == ix0.traps@);
        assert(ix0.empty@ == ix0.cells_of('.') && ix0.walls@ == ix0.cells_of('#'));
        assert(ix1.empty@ == ix1.cells_of('.'));
        assert(ix2.empty@ == ix2.cells_of('.'));
        assert(ix3.players@ == ix0.players@ && ix3.goals@ == ix0.goals@);
        assert(ix3.enemies@ == ix2.enemies@);
        assert(placement(g3, ix3) == plan_before_moves(g0, ix0, *plan, wp, ep, tp));
        assert(plan_picks_fit(g0, ix0, *plan, wp, ep, tp));
        assert(g4 == repositions(plan_before_moves(g0, ix0, *plan, wp, ep, tp), moves, rp).0);
        assert(plan_result(layout@, *plan, g4));
        let all = set!['.', '#', 'P', 'G', 'E', 'T'];
        lemma_changed_widen(g0, g1, height, width, set!['.', '#'], all);
        lemma_changed_widen(g1, g2, height, width, set!['.', 'E'], all);
        lemma_changed_widen(g2, g3, height, width, set!['.', 'T'], all);
        lemma_changed_widen(g3, g4, height, width, set!['.', 'P', 'G', 'E', 'T'], all);
        lemma_changed_trans(g0, g1, g2, height, width, all, all);
        assert(all + all =~= all);
        lemma_changed_trans(g0, g2, g3, height, width, all, all);
        lemma_changed_trans(g0, g3, g4, height, width, all, all);
        lemma_count_is_len(g4, height, width, ix, '#');
        lemma_count_is_len(g4, height, width, ix, 'P');
        lemma_count_is_len(g4, height, width, ix, 'G');
        lemma_count_is_len(g4, height, width, ix, 'E');
        lemma_count_is_len(g4, height, width, ix, 'T');
    }
    let text = join_rows(&grid);
    let mutated = string_of(&text);
    proof {
        let counts = planned_counts(g0, height, width, *plan);
        assert(mutated@ == joined(g4));
        assert(count_cells(g4, height, width, '#') == counts.1);
        assert(count_cells(g4, height, width, 'E') == counts.2);
        assert(count_cells(g4, height, width, 'T') == counts.3);
    }
    mutated
}

/// The cells with row under `height` and column under `width`.
pub open spec fn grid_cells(height: nat, width: nat) -> Set<(usize, usize)> {
    Set::new(|p: (usize, usize)| p.0 < height && p.1 < width)
}

proof fn lemma_row_cells_finite(r: usize, width: usize)
    ensures
        Set::new(|p: (usize, usize)| p.0 == r && p.1 < width).finite(),
{
    let base = Set::new(|c: usize| 0 <= c < width);
    vstd::set_lib::range_set_properties::<usize>(0, width);
    assert(base == <usize as vstd::set_lib::FiniteRange>::range_set(0, width));
    let f = |c: usize| (r, c);
    base.lemma_map_finite(f);
    assert forall|p: (usize, usize)| #[trigger] base.map(f).contains(p) <==> p.0 == r && p.1 < width by {
        if p.0 == r && p.1 < width {
            assert(base.contains(p.1) && f(p.1) == p);
        }
    }
    assert(Set::new(|p: (usize, usize)| p.0 == r && p.1 < width) =~= base.map(f));
}

proof fn lemma_grid_cells_finite(height: usize, width: usize)
    ensures
        grid_cells(height as nat, width as nat).finite(),
    decreases height,
{
    if height == 0 {
        assert(grid_cells(0, width as nat) =~= Set::empty());
    } else {
        let r = (height - 1) as usize;
        lemma_grid_cells_finite(r, width);
        lemma_row_cells_finite(r, width);
        let row = Set::new(|p: (usize, usize)| p.0 == r && p.1 < width);
        assert(grid_cells(height as nat, width as nat) =~= grid_cells(r as nat, width as nat) + row);
        vstd::set_lib::lemma_set_union_finite_iff(grid_cells(r as nat, width as nat), row);
    }
}

/// An interior cell that holds `c` makes the count of `c` positive.
proof fn lemma_count_positive(g: Seq<Seq<char>>, height: usize, width: usize, c: char, p: (usize, usize))
    requires
        is_interior(width, height, p),
        char_at(g, p) == c,
    ensures
        count_cells(g, height, width, c) > 0,
{
    let s = Set::new(|q: (usize, usize)| is_interior(width, height, q) && char_at(g, q) == c);
    lemma_grid_cells_finite(height, width);
    assert(s.subset_of(grid_cells(height as nat, width as nat)));
    vstd::set_lib::lemma_set_subset_finite(grid_cells(height as nat, width as nat), s);
    assert(s.contains(p));
    vstd::set::axiom_set_remove_len(s, p);
}

/// A character of `g0` still shows in `g1` when the two differ only at
/// interior cells and the interior holds as many of it in both.
proof fn lemma_contains_kept(
    g0: Seq<Seq<char>>,
    g1: Seq<Seq<char>>,
    height: usize,
    width: usize,
    among: Set<char>,
    c: char,
)
    requires
        grid_shape(g0, height, width),
        forall|r: int| 0 <= r < g0.len() ==> (#[trigger] g0[r]).len() <= usize::MAX,
        changed_only_among(g0, g1, height, width, among),
        contains_char(g0, c),
        count_cells(g1, height, width, c) == count_cells(g0, height, width, c),
    ensures
        contains_char(g1, c),
{
    let p = choose|p: (int, int)| #[trigger] has_char_at(g0, c, p);
    assert(g1[p.0].len() == g0[p.0].len());
    assert(g0[p.0].len() <= usize::MAX);
    if g1[p.0][p.1] == c {
        assert(has_char_at(g1, c, p));
    } else {
        let q = (p.0 as usize, p.1 as usize);
        assert(q.0 as int == p.0 && q.1 as int == p.1);
        assert(g1[p.0][p.1] != g0[p.0][p.1]);
        assert(is_interior(width, height, q));
        assert(char_at(g0, q) == c);
        lemma_count_positive(g0, height, width, c, q);
        let s1 = Set::new(|q: (usize, usize)| is_interior(width, height, q) && char_at(g1, q) == c);
        if forall|q: (usize, usize)| !s1.contains(q) {
            assert(s1 =~= Set::empty());
        }
        let q1 = choose|q: (usize, usize)| s1.contains(q);
        assert(g0[q1.0 as int].len() + 1 >= width);
        assert(has_char_at(g1, c, (q1.0 as int, q1.1 as int)));
    }
}

/// A mutation of a layout that the reachability check reads, both as it
/// is and with its lines joined again by line feeds, is read by the check
/// as well: the mutation keeps the length and the last character of every
/// line, and the player and the goal.
proof fn lemma_mutation_searchable(text: Seq<char>, mutated: Seq<char>, plan: MutationPlan)
    requires
        mutation_fits(text, plan),
        searchable(text),
        searchable(joined(char_rows(text))),
        is_mutation_of(text, mutated, plan),
    ensures
        searchable(mutated),
{
    let g0 = char_rows(text);
    let h = layout_height(text);
    let w = layout_width(text);
    let g1 = choose|g1: Seq<Seq<char>>|
        {
            &&& mutated == #[trigger] joined(g1)
            &&& changed_only_among(g0, g1, h, w, set!['.', '#', 'P', 'G', 'E', 'T'])
            &&& count_cells(g1, h, w, '#') == planned_counts(g0, h, w, plan).1
            &&& count_cells(g1, h, w, 'E') == planned_counts(g0, h, w, plan).2
            &&& count_cells(g1, h, w, 'T') == planned_counts(g0, h, w, plan).3
            &&& count_cells(g1, h, w, 'P') == count_cells(g0, h, w, 'P')
            &&& count_cells(g1, h, w, 'G') == count_cells(g0, h, w, 'G')
            &&& plan_result(text, plan, g1)
        };
    let among = set!['.', '#', 'P', 'G', 'E', 'T'];
    lemma_lines_have_no_newline(text);
    assert(rows_without_newline(g1)) by {
        assert forall|r: int| 0 <= r < g1.len() implies has_no_newline(#[trigger] g1[r]) by {
            assert(has_no_newline(g0[r]));
            assert forall|i: int| 0 <= i < g1[r].len() implies g1[r][i] != '\n' by {
                assert(g1[r].len() == g0[r].len());
                if g1[r][i] != g0[r][i] {
                    assert(among.contains(g1[r][i]));
                }
            }
        }
    }
    assert forall|r: int| 0 <= r < g1.len() && (#[trigger] g1[r]).len() > 0 implies g1[r].last() == g0[r].last() by {
        assert(g1[r].len() == g0[r].len());
        assert(g0[r].len() >= g0[0].len());
        let i = g1[r].len() - 1;
        if g1[r][i] != g0[r][i] {
            assert(is_interior(w, h, (r as usize, i as usize)));
        }
    }
    assert(g1.last().len() == g0.last().len());
    assert(g0[g0.len() - 1].len() >= g0[0].len());
    lemma_lines_of_joined_rows(g0);
    lemma_lines_of_joined_rows(g1);
    let r0 = rejoined_rows(g0);
    let r1 = rejoined_rows(g1);
    assert(char_rows(joined(g0)) == r0);
    assert(char_rows(mutated) == r1);
    assert forall|r: int| 0 <= r < r1.len() implies (#[trigger] r1[r]).len() == r0[r].len() by {
        assert(g1[r].len() == g0[r].len());
        if g1[r].len() > 0 {
            assert(g1[r].last() == g0[r].last());
        }
    }
    assert forall|i: int| 0 <= i < r1.len() implies (#[trigger] r1[i]).len() >= r1[0].len() && r1[i].len() <= i32::MAX by {
        assert(r1[i].len() == r0[i].len());
        assert(r1[0].len() == r0[0].len());
        assert(r0[i].len() >= r0[0].len());
    }
    lemma_contains_kept(g0, g1, h, w, among, 'P');
    lemma_contains_kept(g0, g1, h, w, among, 'G');
    lemma_rejoined_keeps(g1, 'P');
    lemma_rejoined_keeps(g1, 'G');
}

/// A character other than a carriage return that rows hold is still held
/// once they are joined and read back.
proof fn lemma_rejoined_keeps(g: Seq<Seq<char>>, c: char)
    requires
        contains_char(g, c),
        c != '\r',
    ensures
        contains_char(rejoined_rows(g), c),
{
    let p = choose|p: (int, int)| #[trigger] has_char_at(g, c, p);
    let r = rejoined_rows(g);
    assert(r[p.0][p.1] == c);
    assert(has_char_at(r, c, p));
}

/// Each attempt `tried[j]` was a mutation of `text` by `plans[j]` whose
/// goal could not be reached.
pub open spec fn failed_mutations(text: Seq<char>, plans: Seq<MutationPlan>, tried: Seq<Seq<char>>) -> bool {
    &&& tried.len() <= plans.len()
    &&& forall|j: int|
        0 <= j < tried.len() ==> is_mutation_of(text, #[trigger] tried[j], plans[j]) && !goal_reachable(tried[j])
}

/// Mutates the layout by each plan in turn, keeping the first mutation
/// whose goal can be reached from its player; `None` when every attempt
/// fails (or there is none).
pub fn mutate_valid_layout(layout: &str, plans: &Vec<MutationPlan>) -> (found: Option<String>)
    requires
        searchable(layout@),
        searchable(joined(char_rows(layout@))),
        forall|k: int| 0 <= k < plans@.len() ==> mutation_fits(layout@, #[trigger] plans@[k]),
    ensures
        match found {
            Some(s) => exists|tried: Seq<Seq<char>>|
                {
                    &&& #[trigger] failed_mutations(layout@, plans@, tried)
                    &&& tried.len() < plans@.len()
                    &&& is_mutation_of(layout@, s@, plans@[tried.len() as int])
                    &&& goal_reachable(s@)
                },
            None => exists|tried: Seq<Seq<char>>|
                #[trigger] failed_mutations(layout@, plans@, tried) && tried.len() == plans@.len(),
        },
{
    let ghost mut tried: Seq<Seq<char>> = seq![];
    let mut k: usize = 0;
    while k < plans.len()
        invariant
            k <= plans@.len(),
            tried.len() == k,
            searchable(layout@),
            searchable(joined(char_rows(layout@))),
            forall|k: int| 0 <= k < plans@.len() ==> mutation_fits(layout@, #[trigger] plans@[k]),
            failed_mutations(layout@, plans@, tried),
        decreases plans@.len() - k,
    {
        let plan = &plans[k];
        let candidate = mutate_layout(layout, plan);
        proof {
            lemma_mutation_searchable(layout@, candidate@, *plan);
        }
        if is_layout_reachable(candidate.as_str()) {
            return Some(candidate);
        }
        proof {
            let t = tried.push(candidate@);
            assert forall|j: int| 0 <= j < t.len() implies is_mutation_of(layout@, #[trigger] t[j], plans@[j]) && !goal_reachable(t[j]) by {
                if j < tried.len() {
                    assert(t[j] == tried[j]);
                }
            }
            tried = t;
        }
        k = k + 1;
    }
    None
}

/// `wall_counts`, computed.
fn count_after_walls(empty: u128, walls: u128, n: usize, max_walls: u128) -> (counts: (u128, u128))
    requires
        empty + walls < 0x1_0000_0000_0000_0000_0000,
    ensures
        (counts.0 as nat, counts.1 as nat) == wall_counts(empty as nat, walls as nat, n as nat, max_walls as nat),
        counts.0 + counts.1 == empty + walls,
{
    let mut e = empty;
    let mut w = walls;
    let mut k: usize = 0;
    while k < n
        invariant
            k <= n,
            e + w == empty + walls,
            empty + walls < 0x1_0000_0000_0000_0000_0000,
            (e as nat, w as nat) == wall_counts(empty as nat, walls as nat, k as nat, max_walls as nat),
        decreases n - k,
    {
        if e > 0 && w + 1 <= max_walls {
            e = e - 1;
            w = w + 1;
        } else if w > 0 {
            e = e + 1;
            w = w - 1;
        }
        k = k + 1;
    }
    (e, w)
}

/// `entity_counts`, computed.
fn count_after_entity(empty: u128, count: u128, max_count: u128, mutation: MutationType) -> (counts: (u128, u128))
    requires
        empty + count < 0x1_0000_0000_0000_0000_0000,
    ensures
        (counts.0 as nat, counts.1 as nat) == entity_counts(empty as nat, count as nat, max_count as nat, mutation),
        counts.0 + counts.1 == empty + count,
{
    match mutation {
        MutationType::Add => if count < max_count && empty > 0 {
            (empty - 1, count + 1)
        } else {
            (empty, count)
        },
        MutationType::Remove => if count > 0 {
            (empty + 1, count - 1)
        } else {
            (empty, count)
        },
        MutationType::Nothing => (empty, count),
    }
}

/// Whether `mutate_layout` can carry out the plan on the layout: exactly
/// `mutation_fits`.
pub fn can_mutate(layout: &str, plan: &MutationPlan) -> (b: bool)
    ensures
        b == mutation_fits(layout@, *plan),
{
    let grid = layout_to_chars(layout);
    let ghost g = char_rows(layout@);
    proof {
        lemma_grid_of_layout(grid@, layout@);
    }
    if grid.len() < 2 {
        return false;
    }
    let height = grid.len();
    let width = grid[0].len();
    assert(height == layout_height(layout@) && width == layout_width(layout@));
    if width < 2 {
        return false;
    }
    let mut r: usize = 1;
    while r + 1 < height
        invariant
            1 <= r < height,
            height == g.len(),
            width == g[0].len(),
            g == char_rows(layout@),
            height == layout_height(layout@),
            width == layout_width(layout@),
            width >= 2,
            rows_view(grid@) == g,
            forall|j: int| 1 <= j < r ==> #[trigger] g[j].len() + 1 >= width,
        decreases height - r,
    {
        assert(grid@[r as int]@ == g[r as int]);
        if grid[r].len() < width - 1 {
            assert(!(g[r as int].len() + 1 >= width));
            assert(!grid_shape(g, height, width));
            return false;
        }
        r = r + 1;
    }
    assert(grid_shape(g, height, width));
    let ix = index_cells(&grid, height, width);
    proof {
        assert(tracked_char('.') && tracked_char('#') && tracked_char('P'));
        assert(tracked_char('G') && tracked_char('E') && tracked_char('T'));
        lemma_count_is_len(g, height, width, ix, '.');
        lemma_count_is_len(g, height, width, ix, '#');
        lemma_count_is_len(g, height, width, ix, 'P');
        lemma_count_is_len(g, height, width, ix, 'G');
        lemma_count_is_len(g, height, width, ix, 'E');
        lemma_count_is_len(g, height, width, ix, 'T');
    }
    let walls = count_after_walls(ix.empty.len() as u128, ix.walls.len() as u128, plan.n_wall_mutations, plan.max_walls as u128);
    let enemies = count_after_entity(walls.0, ix.enemies.len() as u128, plan.max_enemies as u128, plan.enemy_mutation);
    let traps = count_after_entity(enemies.0, ix.traps.len() as u128, plan.max_traps as u128, plan.trap_mutation);
    let n = plan.n_repositions as u128;
    let movable = ix.players.len() as u128 + ix.goals.len() as u128 + enemies.1 + traps.1;
    n <= movable && n <= traps.0
}

} // verus!
