//! The loot map: a grid of tiles read from text, with the player's start and the goal, and
//! the moves from a tile to its neighbours.

use vstd::prelude::*;
use std::collections::HashSet;
use crate::text::{chars_of, is_space, is_whitespace, lines, lines_of, views};

verus! {

/// The tiles a map may hold: open ground of three kinds, a wall-like heavy tile, the three
/// blocked tiles (the player's start among them) and the goal.
pub open spec fn is_tile(c: char) -> bool {
    c == '.' || c == ',' || c == 'o' || c == '=' || c == '1' || c == '3' || c == '0' || c == '2'
}

/// The characters of a line that are not white space.
pub open spec fn non_space(s: Seq<char>) -> Seq<char> {
    s.filter(|c: char| !is_whitespace(c))
}

/// The rows of tiles of the map text `s`.
pub open spec fn tile_rows(s: Seq<char>) -> Seq<Seq<char>> {
    lines_of(s).map_values(|l: Seq<char>| non_space(l))
}

/// Row `i`, column `j` of `rows` holds `c`.
pub open spec fn found_at(rows: Seq<Seq<char>>, c: char, i: int, j: int) -> bool {
    0 <= i < rows.len() && 0 <= j < rows[i].len() && rows[i][j] == c
}

/// `p` is where `c` last occurs in `rows`, reading row by row; `(usize::MAX, usize::MAX)`
/// when it does not occur.
pub open spec fn last_found(rows: Seq<Seq<char>>, c: char, p: (usize, usize)) -> bool {
    if exists|i: int, j: int| found_at(rows, c, i, j) {
        &&& found_at(rows, c, p.0 as int, p.1 as int)
        &&& forall|i: int, j: int| #[trigger] found_at(rows, c, i, j) ==> i < p.0 || (i == p.0 && j <= p.1)
    } else {
        p == (usize::MAX, usize::MAX)
    }
}

/// A map: its tiles row by row, its height, the width of its last row, and where the player
/// starts and the goal lies.
pub struct Graph {
    pub height: usize,
    pub width: usize,
    pub tiles: Vec<Vec<char>>,
    pub player_coords: (usize, usize),
    pub goal_coords: (usize, usize),
}

/// Every character of the map text `s` that is not white space is a tile.
pub open spec fn map_ok(s: Seq<char>) -> bool {
    forall|i: int, j: int| 0 <= i < tile_rows(s).len() && 0 <= j < tile_rows(s)[i].len() ==> is_tile(#[trigger] tile_rows(s)[i][j])
}

/// `g` is the map that the text `s` gives: its rows of tiles, their number, the width of the
/// last, and the last places of the player's start and of the goal.
pub open spec fn map_read(g: Graph, s: Seq<char>) -> bool {
    let rows = tile_rows(s);
    &&& views(g.tiles@) == rows
    &&& g.height == rows.len()
    &&& g.width == if rows.len() == 0 {
        0
    } else {
        rows.last().len()
    }
    &&& last_found(rows, '0', g.player_coords)
    &&& last_found(rows, '2', g.goal_coords)
}

/// The moves from a tile: down, up, left, right, then the four diagonals.
pub open spec fn moves() -> Seq<(int, int)> {
    seq![(1int, 0int), (-1int, 0int), (0int, -1int), (0int, 1int), (1int, -1int), (1int, 1int), (-1int, -1int), (-1int, 1int)]
}

/// The tiles reached by the first `k` moves from `(row, col)` that stay on a map of the
/// given height and width, in order.
pub open spec fn neighbours_of(height: int, width: int, row: int, col: int, k: int) -> Seq<(usize, usize)>
    decreases k,
{
    if k <= 0 {
        Seq::empty()
    } else {
        let before = neighbours_of(height, width, row, col, k - 1);
        let r = row + moves()[k - 1].0;
        let c = col + moves()[k - 1].1;
        if 0 <= r < height && 0 <= c < width {
            before.push((r as usize, c as usize))
        } else {
            before
        }
    }
}

/// The key of the tile at `p` on a map `width` tiles wide: its place when the map is read
/// row by row.
pub open spec fn tile_key(width: int, p: (usize, usize)) -> usize {
    (p.0 * width + p.1) as usize
}

/// Whether the key of a tile on a map `width` tiles wide is missing from `explored`.
pub open spec fn unexplored(explored: Set<usize>, width: int) -> spec_fn((usize, usize)) -> bool {
    |p: (usize, usize)| !explored.contains(tile_key(width, p))
}

/// Every tile that the first `k` moves reach lies on the map.
proof fn lemma_neighbours_on_map(height: int, width: int, row: int, col: int, k: int)
    ensures
        forall|i: int| 0 <= i < neighbours_of(height, width, row, col, k).len() ==> {
            let p = #[trigger] neighbours_of(height, width, row, col, k)[i];
            p.0 < height && p.1 < width
        },
    decreases k,
{
    if k > 0 {
        lemma_neighbours_on_map(height, width, row, col, k - 1);
        let before = neighbours_of(height, width, row, col, k - 1);
        let now = neighbours_of(height, width, row, col, k);
        assert forall|i: int| 0 <= i < now.len() implies #[trigger] now[i].0 < height && now[i].1 < width by {
            if i < before.len() {
                assert(now[i] == before[i]);
            }
        }
    }
}

/// `p` is the tile that move `m` leads to from `(row, col)`, and it lies on the map.
spec fn move_reaches(height: int, width: int, row: int, col: int, m: int, p: (usize, usize)) -> bool {
    let r = row + moves()[m].0;
    let c = col + moves()[m].1;
    &&& 0 <= r < height
    &&& 0 <= c < width
    &&& p.0 == r
    &&& p.1 == c
}

/// The first `k` moves reach exactly the tiles they lead to on the map.
proof fn lemma_neighbours_reach(height: int, width: int, row: int, col: int, k: int)
    requires
        height <= usize::MAX + 1,
        width <= usize::MAX + 1,
        0 <= k <= 8,
    ensures
        forall|p: (usize, usize)| #[trigger] neighbours_of(height, width, row, col, k).contains(p) <==> exists|m: int| 0 <= m < k
            && move_reaches(height, width, row, col, m, p),
    decreases k,
{
    if k > 0 {
        lemma_neighbours_reach(height, width, row, col, k - 1);
        let before = neighbours_of(height, width, row, col, k - 1);
        let now = neighbours_of(height, width, row, col, k);
        let r = row + moves()[k - 1].0;
        let c = col + moves()[k - 1].1;
        assert forall|p: (usize, usize)| #[trigger] now.contains(p) <==> exists|m: int| 0 <= m < k && move_reaches(height, width, row, col, m, p) by {
            if 0 <= r < height && 0 <= c < width {
                assert(now == before.push((r as usize, c as usize)));
                if now.contains(p) {
                    if !before.contains(p) {
                        assert(p == (r as usize, c as usize));
                        assert(move_reaches(height, width, row, col, k - 1, p));
                    }
                }
                if exists|m: int| 0 <= m < k && move_reaches(height, width, row, col, m, p) {
                    let m = choose|m: int| 0 <= m < k && move_reaches(height, width, row, col, m, p);
                    if m == k - 1 {
                        assert(p == (r as usize, c as usize));
                        assert(now[now.len() - 1] == p);
                    } else {
                        assert(before.contains(p));
                        let q = choose|q: int| 0 <= q < before.len() && before[q] == p;
                        assert(now[q] == p);
                    }
                }
            } else {
                assert(now == before);
                if exists|m: int| 0 <= m < k && move_reaches(height, width, row, col, m, p) {
                    let m = choose|m: int| 0 <= m < k && move_reaches(height, width, row, col, m, p);
                    assert(m != k - 1);
                }
            }
        }
    }
}

/// The neighbours of `(row, col)` are exactly the tiles of the map that differ from it by at
/// most one in each coordinate, `(row, col)` itself excepted.
pub proof fn lemma_neighbours_adjacent(height: int, width: int, row: int, col: int)
    requires
        height <= usize::MAX + 1,
        width <= usize::MAX + 1,
    ensures
        forall|p: (usize, usize)| #[trigger] neighbours_of(height, width, row, col, 8).contains(p) <==> {
            &&& p.0 < height
            &&& p.1 < width
            &&& row - 1 <= p.0 <= row + 1
            &&& col - 1 <= p.1 <= col + 1
            &&& (p.0 != row || p.1 != col)
        },
{
    lemma_neighbours_reach(height, width, row, col, 8);
    assert forall|p: (usize, usize)| #[trigger] neighbours_of(height, width, row, col, 8).contains(p) <==> {
        &&& p.0 < height
        &&& p.1 < width
        &&& row - 1 <= p.0 <= row + 1
        &&& col - 1 <= p.1 <= col + 1
        &&& (p.0 != row || p.1 != col)
    } by {
        let dr = p.0 - row;
        let dc = p.1 - col;
        if p.0 < height && p.1 < width && -1 <= dr <= 1 && -1 <= dc <= 1 && (dr != 0 || dc != 0) {
            let m: int = if dr == 1 && dc == 0 {
                0
            } else if dr == -1 && dc == 0 {
                1
            } else if dr == 0 && dc == -1 {
                2
            } else if dr == 0 && dc == 1 {
                3
            } else if dr == 1 && dc == -1 {
                4
            } else if dr == 1 && dc == 1 {
                5
            } else if dr == -1 && dc == -1 {
                6
            } else {
                7
            };
            assert(move_reaches(height, width, row, col, m, p));
        }
    }
}

/// The characters of `s` that are not white space.
fn tiles_of(s: &Vec<char>) -> (t: Vec<char>)
    ensures
        t@ == non_space(s@),
{
    let mut t: Vec<char> = Vec::new();
    let mut i: usize = 0;
    while i < s.len()
        invariant
            i <= s.len(),
            t@ == non_space(s@.take(i as int)),
        decreases s.len() - i,
    {
        let c = s[i];
        proof {
            assert(s@.take(i + 1) =~= s@.take(i as int).push(c));
            s@.take(i as int).lemma_filter_push(c, |c: char| !is_whitespace(c));
        }
        if !is_space(c) {
            t.push(c);
        }
        i += 1;
    }
    assert(s@.take(i as int) =~= s@);
    t
}

/// Rows holding `c` at the same places have the same last place of `c`.
proof fn lemma_found_same(r1: Seq<Seq<char>>, r2: Seq<Seq<char>>, c: char, p: (usize, usize))
    requires
        forall|a: int, b: int| found_at(r1, c, a, b) == found_at(r2, c, a, b),
    ensures
        last_found(r1, c, p) == last_found(r2, c, p),
{
    if exists|i: int, j: int| found_at(r1, c, i, j) {
        let (i, j) = choose|i: int, j: int| found_at(r1, c, i, j);
        assert(found_at(r2, c, i, j));
    }
    if exists|i: int, j: int| found_at(r2, c, i, j) {
        let (i, j) = choose|i: int, j: int| found_at(r2, c, i, j);
        assert(found_at(r1, c, i, j));
    }
}

impl Graph {
    /// Reads a map: one row of tiles per line, white space ignored. Gives `None` when a
    /// character is not a tile.
    #[verifier::rlimit(80)]
    pub fn read(tile_str: String) -> (g: Option<Graph>)
        ensures
            g is None <==> !map_ok(tile_str@),
            g matches Some(g) ==> map_read(g, tile_str@),
    {
        let text = chars_of(tile_str.as_str());
        let rows = lines(&text);
        let ghost ls = lines_of(tile_str@);
        let ghost trows = tile_rows(tile_str@);
        let height = rows.len();
        let mut tiles: Vec<Vec<char>> = Vec::new();
        let mut width: usize = 0;
        let mut plr_tup: (usize, usize) = (usize::MAX, usize::MAX);
        let mut goal_tup: (usize, usize) = (usize::MAX, usize::MAX);
        let mut i: usize = 0;
        while i < height
            invariant
                height == rows@.len(),
                views(rows@) == ls,
                ls == lines_of(tile_str@),
                trows == tile_rows(tile_str@),
                trows.len() == ls.len(),
                i <= height,
                views(tiles@) == trows.take(i as int),
                width == if i == 0 {
                    0
                } else {
                    trows[i - 1].len()
                },
                forall|a: int, b: int| 0 <= a < i && 0 <= b < trows[a].len() ==> is_tile(#[trigger] trows[a][b]),
                last_found(trows.take(i as int), '0', plr_tup),
                last_found(trows.take(i as int), '2', goal_tup),
            decreases height - i,
        {
            assert(rows@[i as int]@ == ls[i as int]);
            let chrs = tiles_of(&rows[i]);
            assert(chrs@ == trows[i as int]);
            width = chrs.len();
            let ghost done = trows.take(i as int);
            let ghost next = trows.take(i + 1);
            assert(next =~= done.push(chrs@));
            proof {
                let start = done + seq![chrs@.take(0)];
                assert forall|a: int, b: int| found_at(start, '0', a, b) == found_at(done, '0', a, b) by {
                    if 0 <= a < done.len() {
                        assert(start[a] == done[a]);
                    }
                }
                assert forall|a: int, b: int| found_at(start, '2', a, b) == found_at(done, '2', a, b) by {
                    if 0 <= a < done.len() {
                        assert(start[a] == done[a]);
                    }
                }
                lemma_found_same(start, done, '0', plr_tup);
                lemma_found_same(start, done, '2', goal_tup);
            }
            let mut j: usize = 0;
            while j < width
                invariant
                    width == chrs@.len(),
                    j <= width,
                    next == done.push(chrs@),
                    trows == tile_rows(tile_str@),
                    i < trows.len(),
                    chrs@ == trows[i as int],
                    done.len() == i,
                    i < next.len(),
                    forall|b: int| 0 <= b < j ==> is_tile(#[trigger] chrs@[b]),
                    last_found(done + seq![chrs@.take(j as int)], '0', plr_tup),
                    last_found(done + seq![chrs@.take(j as int)], '2', goal_tup),
                decreases width - j,
            {
                let c = chrs[j];
                let ghost pre = done + seq![chrs@.take(j as int)];
                let ghost post = done + seq![chrs@.take(j + 1)];
                proof {
                    assert(chrs@.take(j + 1) =~= chrs@.take(j as int).push(c));
                    assert forall|a: int, b: int| #[trigger] found_at(post, '0', a, b) && !(a == i && b == j) implies found_at(pre, '0', a, b) by {
                        if a == i {
                            assert(post[a][b] == pre[a][b]);
                        } else {
                            assert(post[a] == pre[a]);
                        }
                    }
                    assert forall|a: int, b: int| #[trigger] found_at(post, '2', a, b) && !(a == i && b == j) implies found_at(pre, '2', a, b) by {
                        if a == i {
                            assert(post[a][b] == pre[a][b]);
                        } else {
                            assert(post[a] == pre[a]);
                        }
                    }
                    assert forall|a: int, b: int| #[trigger] found_at(pre, '0', a, b) implies found_at(post, '0', a, b) by {
                        if a == i {
                            assert(post[a][b] == pre[a][b]);
                        } else {
                            assert(post[a] == pre[a]);
                        }
                    }
                    assert forall|a: int, b: int| #[trigger] found_at(pre, '2', a, b) implies found_at(post, '2', a, b) by {
                        if a == i {
                            assert(post[a][b] == pre[a][b]);
                        } else {
                            assert(post[a] == pre[a]);
                        }
                    }
                }
                if c == '0' {
                    plr_tup = (i, j);
                }
                if c == '2' {
                    goal_tup = (i, j);
                }
                proof {
                    assert(post[i as int][j as int] == c);
                    if c == '0' {
                        assert(found_at(post, '0', i as int, j as int));
                    }
                    if c == '2' {
                        assert(found_at(post, '2', i as int, j as int));
                    }
                }
                if !(c == '.' || c == ',' || c == 'o' || c == '=' || c == '1' || c == '3' || c == '0' || c == '2') {
                    proof {
                        assert(trows[i as int][j as int] == c);
                        assert(!is_tile(tile_rows(tile_str@)[i as int][j as int]));
                    }
                    return None;
                }
                j += 1;
            }
            proof {
                assert(chrs@.take(j as int) =~= chrs@);
                assert(done + seq![chrs@.take(j as int)] =~= next);
            }
            tiles.push(chrs);
            proof {
                assert(views(tiles@) =~= next);
                assert forall|a: int, b: int| 0 <= a < i + 1 && 0 <= b < trows[a].len() implies is_tile(#[trigger] trows[a][b]) by {
                    if a == i {
                        assert(trows[a][b] == chrs@[b]);
                    }
                }
            }
            i += 1;
        }
        proof {
            assert(trows.take(height as int) =~= trows);
            if height > 0 {
                assert(trows.last() == trows[height - 1]);
            }
        }
        Some(Graph { height, width, tiles, player_coords: plr_tup, goal_coords: goal_tup })
    }

    /// Reads a map whose characters are all tiles: one row of tiles per line, white space
    /// ignored.
    pub fn new(tile_str: String) -> (g: Graph)
        requires
            map_ok(tile_str@),
        ensures
            map_read(g, tile_str@),
    {
        match Graph::read(tile_str) {
            Some(g) => g,
            None => Graph { height: 0, width: 0, tiles: Vec::new(), player_coords: (0, 0), goal_coords: (0, 0) },
        }
    }

    /// Whether `(row, col)` lies on the map.
    pub fn is_valid_coords(&self, row: isize, col: isize) -> (r: bool)
        requires
            self.height <= isize::MAX,
            self.width <= isize::MAX,
        ensures
            r == (0 <= row < self.height && 0 <= col < self.width),
    {
        row < (self.height as isize) && col < (self.width as isize) && row > -1 && col > -1
    }

    /// The tiles one move away from `(curr_row, curr_col)` that lie on the map, in the order
    /// of the moves.
    pub fn neighbours(&self, curr_row: isize, curr_col: isize) -> (found: Vec<(usize, usize)>)
        requires
            self.height <= isize::MAX,
            self.width <= isize::MAX,
            isize::MIN < curr_row < isize::MAX,
            isize::MIN < curr_col < isize::MAX,
        ensures
            found@ == neighbours_of(self.height as int, self.width as int, curr_row as int, curr_col as int, 8),
            forall|p: (usize, usize)| #[trigger] found@.contains(p) <==> {
                &&& p.0 < self.height
                &&& p.1 < self.width
                &&& curr_row - 1 <= p.0 <= curr_row + 1
                &&& curr_col - 1 <= p.1 <= curr_col + 1
                &&& (p.0 != curr_row || p.1 != curr_col)
            },
    {
        proof {
            lemma_neighbours_adjacent(self.height as int, self.width as int, curr_row as int, curr_col as int);
        }
        let mut successors: Vec<(usize, usize)> = Vec::with_capacity(8);
        let shifts: [(isize, isize); 8] = [(1, 0), (-1, 0), (0, -1), (0, 1), (1, -1), (1, 1), (-1, -1), (-1, 1)];
        let mut k: usize = 0;
        while k < 8
            invariant
                k <= 8,
                shifts@ == seq![(1isize, 0isize), (-1isize, 0isize), (0isize, -1isize), (0isize, 1isize), (1isize, -1isize), (1isize, 1isize), (-1isize, -1isize), (-1isize, 1isize)],
                self.height <= isize::MAX,
                self.width <= isize::MAX,
                isize::MIN < curr_row < isize::MAX,
                isize::MIN < curr_col < isize::MAX,
                successors@ == neighbours_of(self.height as int, self.width as int, curr_row as int, curr_col as int, k as int),
            decreases 8 - k,
        {
            let delta = shifts[k];
            assert(delta.0 as int == moves()[k as int].0 && delta.1 as int == moves()[k as int].1);
            let r = curr_row + delta.0;
            let c = curr_col + delta.1;
            if self.is_valid_coords(r, c) {
                successors.push((r as usize, c as usize));
            }
            k += 1;
        }
        successors
    }

    /// The key of the tile at `(row, col)`: its place when the map is read row by row.
    pub fn tile_key(&self, row: usize, col: usize) -> (k: usize)
        requires
            row < self.height,
            col < self.width,
            self.height * self.width <= usize::MAX,
        ensures
            k == row * self.width + col,
            k == tile_key(self.width as int, (row, col)),
    {
        proof {
            let (h, w, r, c) = (self.height as int, self.width as int, row as int, col as int);
            assert(r * w + c < h * w) by (nonlinear_arith)
                requires
                    0 <= r < h,
                    0 <= c < w,
            {
                assert(r * w + c < (r + 1) * w);
                assert((r + 1) * w <= h * w);
            }
        }
        row * self.width + col
    }

    /// The tiles one move away from `(curr_row, curr_col)` that lie on the map and whose keys
    /// are not in `explored`, in the order of the moves.
    pub fn find_successors(&self, explored: &HashSet<usize>, curr_row: isize, curr_col: isize) -> (found: Vec<(usize, usize)>)
        requires
            self.height <= isize::MAX,
            self.width <= isize::MAX,
            self.height * self.width <= usize::MAX,
            isize::MIN < curr_row < isize::MAX,
            isize::MIN < curr_col < isize::MAX,
        ensures
            found@ == neighbours_of(self.height as int, self.width as int, curr_row as int, curr_col as int, 8).filter(
                unexplored(explored@, self.width as int),
            ),
            forall|p: (usize, usize)| #[trigger] found@.contains(p) <==> {
                &&& p.0 < self.height
                &&& p.1 < self.width
                &&& curr_row - 1 <= p.0 <= curr_row + 1
                &&& curr_col - 1 <= p.1 <= curr_col + 1
                &&& (p.0 != curr_row || p.1 != curr_col)
                &&& !explored@.contains(tile_key(self.width as int, p))
            },
    {
        broadcast use vstd::std_specs::hash::group_hash_axioms;

        let near = self.neighbours(curr_row, curr_col);
        let ghost keep = unexplored(explored@, self.width as int);
        proof {
            lemma_neighbours_on_map(self.height as int, self.width as int, curr_row as int, curr_col as int, 8);
        }
        let mut found: Vec<(usize, usize)> = Vec::with_capacity(8);
        let mut i: usize = 0;
        while i < near.len()
            invariant
                i <= near@.len(),
                self.height * self.width <= usize::MAX,
                forall|j: int| 0 <= j < near@.len() ==> (#[trigger] near@[j]).0 < self.height && near@[j].1 < self.width,
                keep == unexplored(explored@, self.width as int),
                found@ == near@.take(i as int).filter(keep),
            decreases near@.len() - i,
        {
            let p = near[i];
            let k = self.tile_key(p.0, p.1);
            proof {
                assert(near@.take(i + 1) =~= near@.take(i as int).push(p));
                near@.take(i as int).lemma_filter_push(p, keep);
            }
            if !explored.contains(&k) {
                found.push(p);
            }
            i += 1;
        }
        assert(near@.take(i as int) =~= near@);
        proof {
            assert forall|p: (usize, usize)| #[trigger] found@.contains(p) <==> near@.contains(p) && keep(p) by {
                if found@.contains(p) {
                    near@.lemma_filter_contains_rev(keep, p);
                    broadcast use vstd::seq_lib::group_filter_ensures;

                    let q = choose|q: int| 0 <= q < found@.len() && found@[q] == p;
                }
                if near@.contains(p) && keep(p) {
                    let q = choose|q: int| 0 <= q < near@.len() && near@[q] == p;
                    near@.lemma_filter_contains(keep, q);
                }
            }
        }
        found
    }
}

} // verus!
