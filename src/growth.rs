use vstd::prelude::*;

use rand_xoshiro::Xoshiro256PlusPlus;

use crate::board::{cells_of, is_square, Board};
use crate::grid::{
    adjacent, empties, empty_at, filled_at, has_empty_neighbor, has_filled_neighbor, in_grid,
    lemma_blank, lemma_edge_exists, lemma_empties_step, lemma_fill, lemma_full,
    lemma_linked_kept, lemma_linked_self, lemma_linked_step, lemma_row_empties_step,
    lemma_some_empty, linked, row_empties, tile_connected, with_cell,
};
use crate::random::{draw_below, seeded_generator};

verus! {

/// How the next cell to fill is chosen while tiles grow.
#[derive(Ord, PartialOrd, Eq, PartialEq, Structural, Copy, Clone, Debug)]
pub enum Mode {
    /// Grow from a filled cell drawn uniformly among the sources
    UniformExtendSource,
    /// Grow into an empty cell drawn uniformly from the frontier
    UniformFreeTarget,
    /// Grow a tile from the cells it covered first
    BiasedToOrigin,
    /// Grow a tile from the cells it covered last
    BiasedFromOrigin,
}

/// Why no board can be grown.
#[derive(Eq, PartialEq, Structural, Copy, Clone, Debug)]
pub enum GrowthError {
    /// The board would have no cells.
    InvalidSize,
    /// There are no tiles, or more tiles than cells.
    InvalidTileCount,
    /// The biased strategies grow only the tiles below the last id, so a
    /// single tile can never cover a board of more than one cell.
    NoTileToGrow,
}

/// The strategies that walk a tile's cells with a bias; they grow only the
/// tiles below the last id.
pub open spec fn is_biased(mode: Mode) -> bool {
    mode == Mode::BiasedToOrigin || mode == Mode::BiasedFromOrigin
}

/// The error `gen_board` reports for these arguments, if any.
pub open spec fn growth_error(strategy: Mode, size: nat, tiles: nat) -> Option<GrowthError> {
    if size == 0 {
        Some(GrowthError::InvalidSize)
    } else if tiles == 0 || tiles > size * size {
        Some(GrowthError::InvalidTileCount)
    } else if tiles == 1 && size > 1 && is_biased(strategy) {
        Some(GrowthError::NoTileToGrow)
    } else {
        None
    }
}

/// `b` is a `size` by `size` board whose every cell holds a tile of
/// `1..=tiles`, and every one of those tiles covers some cell.
pub open spec fn fully_tiled(b: Seq<Seq<usize>>, size: nat, tiles: nat) -> bool {
    &&& b.len() == size
    &&& is_square(b)
    &&& forall|h: int, w: int| in_grid(b, h, w) ==> 1 <= #[trigger] b[h][w] <= tiles
    &&& forall|t: int| 1 <= t <= tiles ==> #[trigger] covers(b, t)
}

/// Some cell of `b` holds tile `t`.
pub open spec fn covers(b: Seq<Seq<usize>>, t: int) -> bool {
    exists|h: int, w: int| in_grid(b, h, w) && b[h][w] == t
}

/// No two cells of `b` hold the same tile.
pub open spec fn one_cell_each(b: Seq<Seq<usize>>) -> bool {
    forall|h1: int, w1: int, h2: int, w2: int|
        in_grid(b, h1, w1) && in_grid(b, h2, w2) && #[trigger] b[h1][w1] == #[trigger] b[h2][w2] ==> h1 == h2
            && w1 == w2
}

/// Whether `v` holds `x`.
fn holds(v: &Vec<(usize, usize)>, x: (usize, usize)) -> (r: bool)
    ensures
        r == v@.contains(x),
{
    let mut i: usize = 0;
    while i < v.len()
        invariant
            i <= v.len(),
            forall|j: int| 0 <= j < i ==> v@[j] != x,
        decreases v.len() - i,
    {
        if v[i].0 == x.0 && v[i].1 == x.1 {
            return true;
        }
        i = i + 1;
    }
    false
}

/// The cells above, left of, below and right of (h, w), in that order, that lie
/// on the board and are empty (`want_empty`) or hold a tile (`!want_empty`).
fn neighbors_where(h: usize, w: usize, board: &Board, want_empty: bool) -> (r: Vec<(usize, usize)>)
    requires
        is_square(cells_of(board)),
        h < board@.len(),
        w < board@.len(),
    ensures
        r@.len() <= 4,
        forall|i: int|
            0 <= i < r@.len() ==> {
                &&& adjacent(h as int, w as int, r@[i].0 as int, r@[i].1 as int)
                &&& want_empty ==> empty_at(cells_of(board), r@[i].0 as int, r@[i].1 as int)
                &&& !want_empty ==> filled_at(cells_of(board), r@[i].0 as int, r@[i].1 as int)
            },
        forall|p: int, q: int|
            adjacent(h as int, w as int, p, q) && (if want_empty {
                empty_at(cells_of(board), p, q)
            } else {
                filled_at(cells_of(board), p, q)
            }) ==> r@.contains((p as usize, q as usize)),
{
    let ghost b = cells_of(board);
    let n = board.len();
    proof {
        assert forall|i: int| 0 <= i < n implies #[trigger] board@[i]@.len() == n by {
            assert(b[i] == board@[i]@);
        }
    }
    let mut r: Vec<(usize, usize)> = Vec::new();
    if h > 0 && (board[h - 1][w] == 0) == want_empty {
        r.push((h - 1, w));
    }
    let ghost r1 = r@;
    if w > 0 && (board[h][w - 1] == 0) == want_empty {
        r.push((h, w - 1));
    }
    let ghost r2 = r@;
    if h + 1 < n && (board[h + 1][w] == 0) == want_empty {
        r.push((h + 1, w));
    }
    let ghost r3 = r@;
    if w + 1 < n && (board[h][w + 1] == 0) == want_empty {
        r.push((h, w + 1));
    }
    proof {
        assert forall|p: int, q: int|
            adjacent(h as int, w as int, p, q) && (if want_empty {
                empty_at(b, p, q)
            } else {
                filled_at(b, p, q)
            }) implies r@.contains((p as usize, q as usize)) by {
            if p == h - 1 {
                assert(r@[r1.len() - 1] == (p as usize, q as usize));
            } else if q == w - 1 {
                assert(r@[r2.len() - 1] == (p as usize, q as usize));
            } else if p == h + 1 {
                assert(r@[r3.len() - 1] == (p as usize, q as usize));
            } else {
                assert(r@[r@.len() - 1] == (p as usize, q as usize));
            }
        }
    }
    r
}

/// The empty cells beside (h, w), in the order up, left, down, right.
fn find_unused_neighbors(h: usize, w: usize, board: &Board) -> (r: Vec<(usize, usize)>)
    requires
        is_square(cells_of(board)),
        h < board@.len(),
        w < board@.len(),
    ensures
        r@.len() <= 4,
        forall|i: int|
            0 <= i < r@.len() ==> adjacent(h as int, w as int, r@[i].0 as int, r@[i].1 as int)
                && empty_at(cells_of(board), r@[i].0 as int, r@[i].1 as int),
        forall|p: int, q: int|
            adjacent(h as int, w as int, p, q) && empty_at(cells_of(board), p, q) ==> r@.contains(
                (p as usize, q as usize),
            ),
{
    neighbors_where(h, w, board, true)
}

/// One of the empty cells beside (h, w), drawn uniformly; `None` when there is none.
fn choose_unoccupied_neighbor(h: usize, w: usize, board: &Board, rng: &mut Xoshiro256PlusPlus) -> (r:
    Option<(usize, usize)>)
    requires
        is_square(cells_of(board)),
        h < board@.len(),
        w < board@.len(),
    ensures
        r is None <==> !has_empty_neighbor(cells_of(board), h as int, w as int),
        r matches Some(c) ==> adjacent(h as int, w as int, c.0 as int, c.1 as int) && empty_at(
            cells_of(board),
            c.0 as int,
            c.1 as int,
        ),
{
    let options = find_unused_neighbors(h, w, board);
    if options.len() == 0 {
        proof {
            let b = cells_of(board);
            if has_empty_neighbor(b, h as int, w as int) {
                if empty_at(b, h - 1, w as int) {
                    assert(adjacent(h as int, w as int, h - 1, w as int));
                    assert(options@.contains(((h - 1) as usize, w)));
                } else if empty_at(b, h as int, w - 1) {
                    assert(adjacent(h as int, w as int, h as int, w - 1));
                    assert(options@.contains((h, (w - 1) as usize)));
                } else if empty_at(b, h + 1, w as int) {
                    assert(adjacent(h as int, w as int, h + 1, w as int));
                    assert(options@.contains(((h + 1) as usize, w)));
                } else {
                    assert(adjacent(h as int, w as int, h as int, w + 1));
                    assert(options@.contains((h, (w + 1) as usize)));
                }
            }
        }
        None
    } else {
        let i = draw_below(rng, options.len());
        let c = options[i];
        assert(has_empty_neighbor(cells_of(board), h as int, w as int));
        Some(c)
    }
}

/// One of the cells beside (h, w) that hold a tile, drawn uniformly; `None` when
/// there is none.
fn choose_occupied_neighbor(h: usize, w: usize, board: &Board, rng: &mut Xoshiro256PlusPlus) -> (r:
    Option<(usize, usize)>)
    requires
        is_square(cells_of(board)),
        h < board@.len(),
        w < board@.len(),
    ensures
        r is None <==> !has_filled_neighbor(cells_of(board), h as int, w as int),
        r matches Some(c) ==> adjacent(h as int, w as int, c.0 as int, c.1 as int) && filled_at(
            cells_of(board),
            c.0 as int,
            c.1 as int,
        ),
{
    let options = neighbors_where(h, w, board, false);
    if options.len() == 0 {
        proof {
            let b = cells_of(board);
            if has_filled_neighbor(b, h as int, w as int) {
                if filled_at(b, h - 1, w as int) {
                    assert(adjacent(h as int, w as int, h - 1, w as int));
                    assert(options@.contains(((h - 1) as usize, w)));
                } else if filled_at(b, h as int, w - 1) {
                    assert(adjacent(h as int, w as int, h as int, w - 1));
                    assert(options@.contains((h, (w - 1) as usize)));
                } else if filled_at(b, h + 1, w as int) {
                    assert(adjacent(h as int, w as int, h + 1, w as int));
                    assert(options@.contains(((h + 1) as usize, w)));
                } else {
                    assert(adjacent(h as int, w as int, h as int, w + 1));
                    assert(options@.contains((h, (w + 1) as usize)));
                }
            }
        }
        None
    } else {
        let i = draw_below(rng, options.len());
        let c = options[i];
        assert(has_filled_neighbor(cells_of(board), h as int, w as int));
        Some(c)
    }
}

/// The number of entries of all the lists of `s` together.
pub open spec fn total_len(s: Seq<Vec<(usize, usize)>>) -> nat
    decreases s.len(),
{
    if s.len() == 0 {
        0
    } else {
        total_len(s.drop_last()) + s.last()@.len()
    }
}

proof fn lemma_total_update(s: Seq<Vec<(usize, usize)>>, i: int, v: Vec<(usize, usize)>)
    requires
        0 <= i < s.len(),
    ensures
        total_len(s.update(i, v)) + s[i]@.len() == total_len(s) + v@.len(),
    decreases s.len(),
{
    if i < s.len() - 1 {
        assert(s.update(i, v).drop_last() =~= s.drop_last().update(i, v));
        lemma_total_update(s.drop_last(), i, v);
    } else {
        assert(s.update(i, v).drop_last() =~= s.drop_last());
    }
}

/// Appends each cell of `ns` that `frontier` does not hold yet.
fn add_to_frontier(frontier: &mut Vec<(usize, usize)>, ns: &Vec<(usize, usize)>)
    requires
        old(frontier)@.no_duplicates(),
    ensures
        final(frontier)@.no_duplicates(),
        old(frontier)@.len() <= final(frontier)@.len() <= old(frontier)@.len() + ns@.len(),
        final(frontier)@.subrange(0, old(frontier)@.len() as int) == old(frontier)@,
        forall|i: int|
            old(frontier)@.len() <= i < final(frontier)@.len() ==> ns@.contains(
                #[trigger] final(frontier)@[i],
            ),
        forall|j: int| 0 <= j < ns@.len() ==> final(frontier)@.contains(#[trigger] ns@[j]),
{
    let ghost start = frontier@;
    let mut k: usize = 0;
    while k < ns.len()
        invariant
            k <= ns@.len(),
            start.len() <= frontier@.len(),
            frontier@.no_duplicates(),
            frontier@.len() <= start.len() + k,
            frontier@.subrange(0, start.len() as int) == start,
            forall|i: int| start.len() <= i < frontier@.len() ==> ns@.contains(#[trigger] frontier@[i]),
            forall|j: int| 0 <= j < k ==> frontier@.contains(#[trigger] ns@[j]),
        decreases ns@.len() - k,
    {
        let ghost before = frontier@;
        let x = ns[k];
        if !holds(frontier, x) {
            frontier.push(x);
            proof {
                assert(frontier@.subrange(0, start.len() as int) =~= before.subrange(0, start.len() as int));
                assert forall|j: int| 0 <= j <= k implies frontier@.contains(#[trigger] ns@[j]) by {
                    if j < k {
                        let m = choose|m: int| 0 <= m < before.len() && before[m] == ns@[j];
                        assert(frontier@[m] == ns@[j]);
                    } else {
                        assert(frontier@[before.len() as int] == ns@[j]);
                    }
                }
                assert forall|i: int| start.len() <= i < frontier@.len() implies ns@.contains(
                    #[trigger] frontier@[i],
                ) by {
                    if i == before.len() {
                        assert(ns@[k as int] == x);
                    } else {
                        assert(frontier@[i] == before[i]);
                    }
                }
            }
        }
        k = k + 1;
    }
}

proof fn lemma_remove_keeps(s: Seq<(usize, usize)>, i: int, x: (usize, usize))
    requires
        0 <= i < s.len(),
        s.contains(x),
        s[i] != x,
    ensures
        s.remove(i).contains(x),
{
    let m = choose|m: int| 0 <= m < s.len() && s[m] == x;
    if m < i {
        assert(s.remove(i)[m] == x);
    } else {
        assert(s.remove(i)[m - 1] == x);
    }
}

proof fn lemma_remove_distinct(s: Seq<(usize, usize)>, i: int)
    requires
        0 <= i < s.len(),
        s.no_duplicates(),
    ensures
        s.remove(i).no_duplicates(),
{
    let r = s.remove(i);
    assert forall|a: int, c: int| 0 <= a < r.len() && 0 <= c < r.len() && a != c implies r[a] != r[c] by {
        let a2 = if a < i { a } else { a + 1 };
        let c2 = if c < i { c } else { c + 1 };
        assert(r[a] == s[a2]);
        assert(r[c] == s[c2]);
    }
}

/// Picks a source uniformly, duplicates counting, and one of its empty
/// neighbours uniformly: the tile of the source grows into that neighbour.
/// A source without empty neighbours is removed, and nothing grows.
fn choose_square_extend_source(
    board: &Board,
    sources: &mut Vec<(usize, usize)>,
    rng: &mut Xoshiro256PlusPlus,
) -> (r: Option<(usize, (usize, usize), (usize, usize))>)
    requires
        is_square(cells_of(board)),
        old(sources)@.len() > 0,
        forall|i: int|
            #![trigger old(sources)@[i]]
            0 <= i < old(sources)@.len() ==> filled_at(
                cells_of(board),
                old(sources)@[i].0 as int,
                old(sources)@[i].1 as int,
            ),
    ensures
        match r {
            Some((t, target, source)) => {
                &&& final(sources)@ == old(sources)@
                &&& filled_at(cells_of(board), source.0 as int, source.1 as int)
                &&& t == cells_of(board)[source.0 as int][source.1 as int]
                &&& empty_at(cells_of(board), target.0 as int, target.1 as int)
                &&& adjacent(source.0 as int, source.1 as int, target.0 as int, target.1 as int)
            },
            None => exists|i: int|
                0 <= i < old(sources)@.len() && final(sources)@ == old(sources)@.remove(i)
                    && !has_empty_neighbor(
                    cells_of(board),
                    old(sources)@[i].0 as int,
                    old(sources)@[i].1 as int,
                ),
        },
{
    let source_index = draw_below(rng, sources.len());
    let (hs, ws) = sources[source_index];
    assert(filled_at(cells_of(board), hs as int, ws as int));
    if let Some(target) = choose_unoccupied_neighbor(hs, ws, board, rng) {
        let tile = board[hs][ws];
        assert(cells_of(board)[hs as int] == board@[hs as int]@);
        Some((tile, target, (hs, ws)))
    } else {
        sources.remove(source_index);
        None
    }
}

/// Picks a frontier cell uniformly and removes it from the frontier. If it is
/// still empty and a neighbour holds a tile, one such neighbour is picked
/// uniformly and its tile grows into the cell; otherwise nothing grows.
fn choose_square_extend_target(
    board: &Board,
    frontier: &mut Vec<(usize, usize)>,
    rng: &mut Xoshiro256PlusPlus,
) -> (r: Option<(usize, (usize, usize), (usize, usize))>)
    requires
        is_square(cells_of(board)),
        old(frontier)@.len() > 0,
        forall|i: int|
            #![trigger old(frontier)@[i]]
            0 <= i < old(frontier)@.len() ==> in_grid(
                cells_of(board),
                old(frontier)@[i].0 as int,
                old(frontier)@[i].1 as int,
            ),
    ensures
        exists|i: int|
            0 <= i < old(frontier)@.len() && final(frontier)@ == old(frontier)@.remove(i) && match r {
                Some((t, target, source)) => {
                    &&& target == old(frontier)@[i]
                    &&& filled_at(cells_of(board), source.0 as int, source.1 as int)
                    &&& t == cells_of(board)[source.0 as int][source.1 as int]
                    &&& empty_at(cells_of(board), target.0 as int, target.1 as int)
                    &&& adjacent(source.0 as int, source.1 as int, target.0 as int, target.1 as int)
                },
                None => !empty_at(cells_of(board), old(frontier)@[i].0 as int, old(frontier)@[i].1 as int)
                    || !has_filled_neighbor(
                    cells_of(board),
                    old(frontier)@[i].0 as int,
                    old(frontier)@[i].1 as int,
                ),
            },
{
    let index = draw_below(rng, frontier.len());
    let target = frontier.remove(index);
    let (ht, wt) = target;
    assert(in_grid(cells_of(board), ht as int, wt as int));
    assert(cells_of(board)[ht as int] == board@[ht as int]@);
    if board[ht][wt] == 0 {
        if let Some((hs, ws)) = choose_occupied_neighbor(ht, wt, board, rng) {
            let tile = board[hs][ws];
            assert(cells_of(board)[hs as int] == board@[hs as int]@);
            Some((tile, target, (hs, ws)))
        } else {
            None
        }
    } else {
        None
    }
}

/// Most steps a biased walk takes before it settles where it stands.
const WALK_LIMIT: usize = 256;

/// A position in `0..len`, found by walking the positions cyclically, forward
/// from the first (`to_origin`) or backward from the last, and stopping at each
/// with chance one in four.
fn walk_position(to_origin: bool, len: usize, rng: &mut Xoshiro256PlusPlus) -> (r: usize)
    requires
        len > 0,
    ensures
        r < len,
{
    let mut position: usize = if to_origin {
        0
    } else {
        len - 1
    };
    let mut steps: usize = 0;
    while steps < WALK_LIMIT
        invariant
            position < len,
        decreases WALK_LIMIT - steps,
    {
        if draw_below(rng, 4) == 0 {
            return position;
        }
        position = if to_origin {
            if position + 1 == len {
                0
            } else {
                position + 1
            }
        } else if position == 0 {
            len - 1
        } else {
            position - 1
        };
        steps = steps + 1;
    }
    position
}

/// Picks a tile of `1..tiles` uniformly among those whose list still holds a
/// cell, then a cell of its list by a biased walk, then one of that cell's
/// empty neighbours uniformly: the tile grows into it. A cell without empty
/// neighbours is removed from its tile's list, and nothing grows.
fn choose_square_biased(
    biased_to_origin: bool,
    tiles: usize,
    board: &Board,
    cells: &mut Vec<Vec<(usize, usize)>>,
    rng: &mut Xoshiro256PlusPlus,
) -> (r: Option<(usize, (usize, usize), (usize, usize))>)
    requires
        is_square(cells_of(board)),
        old(cells)@.len() == tiles + 1,
        exists|t: int| 1 <= t < tiles && #[trigger] old(cells)@[t]@.len() > 0,
        forall|t: int, i: int|
            #![trigger old(cells)@[t]@[i]]
            0 <= t < old(cells)@.len() && 0 <= i < old(cells)@[t]@.len() ==> {
                let c = old(cells)@[t]@[i];
                filled_at(cells_of(board), c.0 as int, c.1 as int) && cells_of(board)[c.0 as int][c.1 as int]
                    == t
            },
    ensures
        match r {
            Some((t, target, source)) => {
                &&& final(cells)@ == old(cells)@
                &&& 1 <= t < tiles
                &&& filled_at(cells_of(board), source.0 as int, source.1 as int)
                &&& t == cells_of(board)[source.0 as int][source.1 as int]
                &&& empty_at(cells_of(board), target.0 as int, target.1 as int)
                &&& adjacent(source.0 as int, source.1 as int, target.0 as int, target.1 as int)
            },
            None => exists|t: int, j: int|
                0 <= t < old(cells)@.len() && 0 <= j < old(cells)@[t]@.len() && final(cells)@.len()
                    == old(cells)@.len() && final(cells)@[t]@ == old(cells)@[t]@.remove(j) && (forall|
                    u: int,
                | 0 <= u < old(cells)@.len() && u != t ==> #[trigger] final(cells)@[u] == old(cells)@[u])
                    && !has_empty_neighbor(
                    cells_of(board),
                    old(cells)@[t]@[j].0 as int,
                    old(cells)@[t]@[j].1 as int,
                ),
        },
{
    let mut live: Vec<usize> = Vec::new();
    let mut t: usize = 1;
    while t < tiles
        invariant
            1 <= t <= tiles,
            cells@.len() == tiles + 1,
            forall|i: int| 0 <= i < live@.len() ==> 1 <= #[trigger] live@[i] < tiles && cells@[live@[i] as int]@.len() > 0,
            forall|u: int| 1 <= u < t && #[trigger] cells@[u]@.len() > 0 ==> live@.contains(u as usize),
        decreases tiles - t,
    {
        let ghost before = live@;
        if cells[t].len() > 0 {
            live.push(t);
        }
        proof {
            assert forall|u: int| 1 <= u < t + 1 && #[trigger] cells@[u]@.len() > 0 implies live@.contains(u as usize) by {
                if u == t {
                    assert(live@[live@.len() - 1] == t);
                } else {
                    assert(before.contains(u as usize));
                    let m = choose|m: int| 0 <= m < before.len() && before[m] == u as usize;
                    assert(live@[m] == before[m]);
                }
            }
        }
        t = t + 1;
    }
    proof {
        let witness = choose|u: int| 1 <= u < tiles && #[trigger] cells@[u]@.len() > 0;
        assert(live@.contains(witness as usize));
    }
    let tile = live[draw_below(rng, live.len())];
    let position = walk_position(biased_to_origin, cells[tile].len(), rng);
    let (hs, ws) = cells[tile][position];
    assert(filled_at(cells_of(board), hs as int, ws as int));
    if let Some(target) = choose_unoccupied_neighbor(hs, ws, board, rng) {
        Some((tile, target, (hs, ws)))
    } else {
        let ghost before = cells@;
        cells[tile].remove(position);
        assert(cells@ == before.update(tile as int, cells@[tile as int]));
        None
    }
}

/// Most uniform draws of a whole cell before a seed cell is found by counting
/// the empty cells instead.
const SEED_TRIES: usize = 64;

/// An empty cell, uniformly at random: cells are drawn uniformly until one is
/// empty, and after `SEED_TRIES` misses the `k`-th empty cell in reading order
/// is taken for a uniform `k`, which has the same distribution.
fn free_cell(board: &Board, remaining: usize, rng: &mut Xoshiro256PlusPlus) -> (r: (usize, usize))
    requires
        is_square(cells_of(board)),
        board@.len() > 0,
        remaining == empties(cells_of(board)),
        remaining > 0,
    ensures
        empty_at(cells_of(board), r.0 as int, r.1 as int),
{
    let ghost b = cells_of(board);
    let n = board.len();
    proof {
        assert forall|i: int| 0 <= i < n implies #[trigger] board@[i]@.len() == n by {
            assert(b[i] == board@[i]@);
        }
    }
    let mut tries: usize = 0;
    while tries < SEED_TRIES
        invariant
            b == cells_of(board),
            n == board@.len(),
            n > 0,
            forall|i: int| 0 <= i < n ==> #[trigger] board@[i]@.len() == n,
        decreases SEED_TRIES - tries,
    {
        let h = draw_below(rng, n);
        let w = draw_below(rng, n);
        if board[h][w] == 0 {
            assert(b[h as int] == board@[h as int]@);
            return (h, w);
        }
        tries = tries + 1;
    }
    let k = draw_below(rng, remaining);
    let mut seen: usize = 0;
    let mut h: usize = 0;
    while h < n
        invariant
            b == cells_of(board),
            is_square(b),
            n == board@.len(),
            forall|i: int| 0 <= i < n ==> #[trigger] board@[i]@.len() == n,
            h <= n,
            k < remaining,
            seen <= k,
            seen == empties(b.subrange(0, h as int)),
        decreases n - h,
    {
        let mut w: usize = 0;
        assert(b[h as int] == board@[h as int]@);
        while w < n
            invariant
                b == cells_of(board),
                is_square(b),
                n == board@.len(),
                forall|i: int| 0 <= i < n ==> #[trigger] board@[i]@.len() == n,
                h < n,
                w <= n,
                b[h as int] == board@[h as int]@,
                seen <= k,
                seen == empties(b.subrange(0, h as int)) + row_empties(b[h as int].subrange(0, w as int)),
            decreases n - w,
        {
            proof {
                lemma_row_empties_step(b[h as int], w as int);
            }
            if board[h][w] == 0 {
                if seen == k {
                    return (h, w);
                }
                seen = seen + 1;
            }
            w = w + 1;
        }
        proof {
            assert(b[h as int].subrange(0, n as int) =~= b[h as int]);
            lemma_empties_step(b, h as int);
        }
        h = h + 1;
    }
    proof {
        assert(b.subrange(0, n as int) =~= b);
    }
    (0, 0)
}

/// A cell outside every board, for frontier invariants that skip no cell.
pub open spec fn no_cell() -> (int, int) {
    (-1, -1)
}

/// One run of growth: the board being filled, and the candidates each strategy
/// draws from. Tile ids run over `1..=tiles`; 0 marks an empty cell.
struct Growth {
    board: Board,
    tiles: usize,
    /// how many cells are still empty
    remaining: usize,
    /// filled cells that may still grow into an empty neighbour; may repeat
    sources: Vec<(usize, usize)>,
    /// cells beside a filled cell, each at most once, in order of discovery
    frontier: Vec<(usize, usize)>,
    /// for each tile, the cells it covers that may still grow, in order of placement
    cells: Vec<Vec<(usize, usize)>>,
    /// the first cell of each tile
    seeds: Ghost<Seq<(int, int)>>,
}

impl Growth {
    /// Every filled cell is the first cell of its tile.
    spec fn inv_only_seeds(&self) -> bool {
        forall|h: int, w: int|
            #![trigger self.b()[h][w]]
            filled_at(self.b(), h, w) ==> h == self.seeds@[self.b()[h][w] as int].0 && w
                == self.seeds@[self.b()[h][w] as int].1
    }

    /// A walk inside its tile leads from the tile's first cell to every filled cell.
    spec fn inv_linked(&self) -> bool {
        forall|h: int, w: int|
            #![trigger self.b()[h][w]]
            filled_at(self.b(), h, w) ==> linked(
                self.b(),
                self.b()[h][w] as int,
                self.seeds@[self.b()[h][w] as int],
                (h, w),
            )
    }

    /// Everything the growth loop keeps true.
    spec fn inv(&self, mode: Mode) -> bool {
        &&& self.inv_linked()
        &&& self.inv_core()
        &&& self.inv_sources()
        &&& self.inv_frontier(no_cell())
        &&& self.inv_cells()
        &&& self.inv_seeds(self.tiles as nat)
        &&& self.inv_lone_last(mode)
    }

    /// What the strategy of `mode` draws from, counted.
    spec fn pool(&self, mode: Mode) -> nat {
        match mode {
            Mode::UniformExtendSource => self.sources@.len(),
            Mode::UniformFreeTarget => self.frontier@.len(),
            _ => total_len(self.cells@),
        }
    }

    /// An empty board of `size` rows of `size` cells, for `tiles` tiles.
    fn new(size: usize, tiles: usize) -> (r: Growth)
        requires
            1 <= size,
            size * size < usize::MAX,
            1 <= tiles <= size * size,
        ensures
            r.inv_core(),
            r.inv_sources(),
            r.inv_frontier(no_cell()),
            r.inv_cells(),
            r.inv_seeds(0),
            r.inv_only_seeds(),
            r.inv_linked(),
            r.tiles == tiles,
            r.b().len() == size,
            r.remaining == size * size,
    {
        let mut board: Board = Vec::new();
        let mut h: usize = 0;
        while h < size
            invariant
                h <= size,
                board@.len() == h,
                forall|i: int| 0 <= i < h ==> (#[trigger] board@[i])@.len() == size,
                forall|i: int, j: int| 0 <= i < h && 0 <= j < size ==> board@[i]@[j] == 0,
            decreases size - h,
        {
            let mut row: Vec<usize> = Vec::new();
            let mut w: usize = 0;
            while w < size
                invariant
                    w <= size,
                    row@.len() == w,
                    forall|j: int| 0 <= j < w ==> row@[j] == 0,
                decreases size - w,
            {
                row.push(0);
                w = w + 1;
            }
            board.push(row);
            h = h + 1;
        }
        let mut cells: Vec<Vec<(usize, usize)>> = Vec::new();
        let mut t: usize = 0;
        while t <= tiles
            invariant
                t <= tiles + 1,
                tiles < usize::MAX,
                cells@.len() == t,
                forall|i: int| 0 <= i < t ==> (#[trigger] cells@[i])@.len() == 0,
            decreases tiles + 1 - t,
        {
            cells.push(Vec::new());
            t = t + 1;
        }
        let ghost b = cells_of(&board);
        proof {
            assert forall|i: int| 0 <= i < b.len() implies #[trigger] b[i].len() == size by {
                assert(b[i] == board@[i]@);
            }
            assert forall|i: int, j: int| 0 <= i < b.len() && 0 <= j < size implies b[i][j] == 0 by {
                assert(b[i] == board@[i]@);
            }
            lemma_blank(b, size as nat);
            assert(size <= size * size) by (nonlinear_arith)
                requires
                    size >= 1,
            ;
        }
        let r = Growth {
            board,
            tiles,
            remaining: size * size,
            sources: Vec::new(),
            frontier: Vec::new(),
            cells,
            seeds: Ghost(Seq::new((tiles + 1) as nat, |i: int| (0, 0))),
        };
        proof {
            assert forall|h: int, w: int| in_grid(b, h, w) implies #[trigger] b[h][w] == 0 by {}
        }
        r
    }

    spec fn b(&self) -> Seq<Seq<usize>> {
        cells_of(&self.board)
    }

    spec fn inv_core(&self) -> bool {
        &&& is_square(self.b())
        &&& 1 <= self.b().len() < usize::MAX
        &&& 1 <= self.tiles
        &&& self.remaining == empties(self.b())
        &&& self.cells@.len() == self.tiles + 1
        &&& forall|h: int, w: int| in_grid(self.b(), h, w) ==> #[trigger] self.b()[h][w] <= self.tiles
    }

    spec fn inv_sources(&self) -> bool {
        &&& forall|i: int|
            #![trigger self.sources@[i]]
            0 <= i < self.sources@.len() ==> filled_at(
                self.b(),
                self.sources@[i].0 as int,
                self.sources@[i].1 as int,
            )
        &&& forall|h: int, w: int|
            #![trigger has_empty_neighbor(self.b(), h, w)]
            filled_at(self.b(), h, w) && has_empty_neighbor(self.b(), h, w)
                ==> self.sources@.contains((h as usize, w as usize))
    }

    spec fn inv_frontier(&self, skip: (int, int)) -> bool {
        &&& forall|i: int|
            #![trigger self.frontier@[i]]
            0 <= i < self.frontier@.len() ==> in_grid(
                self.b(),
                self.frontier@[i].0 as int,
                self.frontier@[i].1 as int,
            )
        &&& self.frontier@.no_duplicates()
        &&& forall|h: int, w: int|
            #![trigger has_filled_neighbor(self.b(), h, w)]
            empty_at(self.b(), h, w) && has_filled_neighbor(self.b(), h, w) && (h, w) != skip
                ==> self.frontier@.contains((h as usize, w as usize))
    }

    spec fn inv_cells(&self) -> bool {
        &&& forall|t: int, i: int|
            #![trigger self.cells@[t]@[i]]
            0 <= t < self.cells@.len() && 0 <= i < self.cells@[t]@.len() ==> {
                let c = self.cells@[t]@[i];
                filled_at(self.b(), c.0 as int, c.1 as int) && self.b()[c.0 as int][c.1 as int] == t
            }
        &&& forall|h: int, w: int|
            #![trigger has_empty_neighbor(self.b(), h, w)]
            filled_at(self.b(), h, w) && has_empty_neighbor(self.b(), h, w)
                ==> self.cells@[self.b()[h][w] as int]@.contains((h as usize, w as usize))
    }

    spec fn inv_seeds(&self, placed: nat) -> bool {
        &&& self.seeds@.len() == self.tiles + 1
        &&& placed <= self.tiles
        &&& forall|t: int|
            1 <= t <= placed ==> in_grid(self.b(), #[trigger] self.seeds@[t].0, self.seeds@[t].1)
                && self.b()[self.seeds@[t].0][self.seeds@[t].1] == t
        &&& forall|h: int, w: int| in_grid(self.b(), h, w) ==> #[trigger] self.b()[h][w] <= placed
    }

    spec fn inv_lone_last(&self, mode: Mode) -> bool {
        is_biased(mode) ==> forall|h: int, w: int|
            in_grid(self.b(), h, w) && #[trigger] self.b()[h][w] == self.tiles ==> h
                == self.seeds@[self.tiles as int].0 && w == self.seeds@[self.tiles as int].1
    }

    /// Places the first cell of every tile, in the order of the ids, each on an
    /// empty cell drawn uniformly.
    fn place_seeds(&mut self, mode: Mode, rng: &mut Xoshiro256PlusPlus)
        requires
            old(self).inv_core(),
            old(self).inv_sources(),
            old(self).inv_frontier(no_cell()),
            old(self).inv_cells(),
            old(self).inv_seeds(0),
            old(self).inv_only_seeds(),
            old(self).inv_linked(),
            old(self).tiles <= old(self).remaining,
            old(self).tiles < usize::MAX,
        ensures
            final(self).inv(mode),
            final(self).inv_only_seeds(),
            final(self).tiles == old(self).tiles,
            final(self).b().len() == old(self).b().len(),
            final(self).remaining + old(self).tiles == old(self).remaining,
    {
        let ghost start = self.remaining;
        let mut tile: usize = 1;
        while tile <= self.tiles
            invariant
                self.inv_core(),
                self.inv_sources(),
                self.inv_frontier(no_cell()),
                self.inv_cells(),
                self.inv_seeds((tile - 1) as nat),
                self.inv_only_seeds(),
                self.inv_linked(),
                1 <= tile <= self.tiles + 1,
                self.tiles <= start,
                self.tiles < usize::MAX,
                self.remaining + tile - 1 == start,
                self.tiles == old(self).tiles,
                self.b().len() == old(self).b().len(),
            decreases self.tiles + 1 - tile,
        {
            let (h, w) = free_cell(&self.board, self.remaining, rng);
            let ghost b0 = self.b();
            let ghost seeds0 = self.seeds@;
            self.fill(tile, h, w);
            self.seeds = Ghost(seeds0.update(tile as int, (h as int, w as int)));
            proof {
                let b = self.b();
                assert forall|p: int, q: int| filled_at(b0, p, q) implies b[p][q] == b0[p][q] by {}
                assert forall|t: int|
                    1 <= t <= tile implies in_grid(b, #[trigger] self.seeds@[t].0, self.seeds@[t].1)
                    && b[self.seeds@[t].0][self.seeds@[t].1] == t by {
                    if t < tile {
                        assert(self.seeds@[t] == seeds0[t]);
                        assert(b0[seeds0[t].0][seeds0[t].1] == t);
                    }
                }
                assert forall|p: int, q: int| in_grid(b, p, q) implies #[trigger] b[p][q] <= tile by {
                    if p != h || q != w {
                        assert(b0[p][q] <= tile - 1);
                    }
                }
                assert forall|p: int, q: int|
                    #![trigger b[p][q]]
                    filled_at(b, p, q) implies p == self.seeds@[b[p][q] as int].0 && q
                    == self.seeds@[b[p][q] as int].1 by {
                    if p != h || q != w {
                        assert(filled_at(b0, p, q));
                        assert(b0[p][q] <= tile - 1);
                    }
                }
                assert forall|p: int, q: int|
                    #![trigger b[p][q]]
                    filled_at(b, p, q) implies linked(b, b[p][q] as int, self.seeds@[b[p][q] as int], (p, q)) by {
                    if p != h || q != w {
                        assert(filled_at(b0, p, q));
                        assert(b0[p][q] <= tile - 1);
                        assert(self.seeds@[b0[p][q] as int] == seeds0[b0[p][q] as int]);
                        lemma_linked_kept(b0, h as int, w as int, tile, b0[p][q] as int, seeds0[b0[p][q] as int], (p, q));
                    } else {
                        lemma_linked_self(b, tile as int, (p, q));
                    }
                }
            }
            tile = tile + 1;
        }
        proof {
            let b = self.b();
            if is_biased(mode) {
                assert forall|h: int, w: int|
                    in_grid(b, h, w) && #[trigger] b[h][w] == self.tiles implies h == self.seeds@[self.tiles as int].0
                    && w == self.seeds@[self.tiles as int].1 by {
                    assert(filled_at(b, h, w));
                }
            }
        }
    }

    /// Grows the tiles, one cell or one pruned candidate per step, with the
    /// strategy of `mode`, until no cell is empty.
    fn grow_all(&mut self, mode: Mode, rng: &mut Xoshiro256PlusPlus)
        requires
            old(self).inv(mode),
            is_biased(mode) && old(self).remaining > 0 ==> old(self).tiles >= 2,
        ensures
            final(self).inv(mode),
            final(self).remaining == 0,
            final(self).tiles == old(self).tiles,
            final(self).b().len() == old(self).b().len(),
    {
        while self.remaining > 0
            invariant
                self.inv(mode),
                is_biased(mode) && self.remaining > 0 ==> self.tiles >= 2,
                self.tiles == old(self).tiles,
                self.b().len() == old(self).b().len(),
            decreases 5 * self.remaining + self.pool(mode),
        {
            let ghost b = self.b();
            let ghost tiles = self.tiles;
            let ghost sources0 = self.sources@;
            let ghost frontier0 = self.frontier@;
            let ghost cells0 = self.cells@;
            proof {
                let u = lemma_some_empty(b);
                let a = self.seeds@[1];
                let e = if is_biased(mode) {
                    lemma_edge_exists(b, tiles - 1, self.seeds@[tiles as int], a, u)
                } else {
                    lemma_edge_exists(b, tiles as int, no_cell(), a, u)
                };
                assert(has_empty_neighbor(b, e.0, e.1));
                assert(has_filled_neighbor(b, e.2, e.3));
                assert(self.sources@.contains((e.0 as usize, e.1 as usize)));
                assert(self.frontier@.contains((e.2 as usize, e.3 as usize)));
                assert(self.cells@[b[e.0][e.1] as int]@.contains((e.0 as usize, e.1 as usize)));
            }
            let pick = match mode {
                Mode::UniformExtendSource => choose_square_extend_source(&self.board, &mut self.sources, rng),
                Mode::UniformFreeTarget => choose_square_extend_target(&self.board, &mut self.frontier, rng),
                Mode::BiasedToOrigin | Mode::BiasedFromOrigin => choose_square_biased(
                    mode == Mode::BiasedToOrigin,
                    self.tiles,
                    &self.board,
                    &mut self.cells,
                    rng,
                ),
            };
            if let Some((t, target, source)) = pick {
                proof {
                    if mode == Mode::UniformFreeTarget {
                        let i = choose|i: int|
                            0 <= i < frontier0.len() && self.frontier@ == frontier0.remove(i) && frontier0[i] == target;
                        lemma_remove_distinct(frontier0, i);
                        assert forall|h: int, w: int|
                            #![trigger has_filled_neighbor(b, h, w)]
                            empty_at(b, h, w) && has_filled_neighbor(b, h, w) && (h, w) != (target.0 as int, target.1 as int)
                            implies self.frontier@.contains((h as usize, w as usize)) by {
                            if (h as usize, w as usize) == frontier0[i] {
                                assert(frontier0[i].0 as int == h && frontier0[i].1 as int == w);
                            }
                            lemma_remove_keeps(frontier0, i, (h as usize, w as usize));
                        }
                    }
                }
                self.fill(t, target.0, target.1);
                proof {
                    let b1 = self.b();
                    assert forall|p: int, q: int|
                        #![trigger b1[p][q]]
                        filled_at(b1, p, q) implies linked(b1, b1[p][q] as int, self.seeds@[b1[p][q] as int], (p, q)) by {
                        if p != target.0 || q != target.1 {
                            assert(filled_at(b, p, q));
                            lemma_linked_kept(b, target.0 as int, target.1 as int, t, b[p][q] as int, self.seeds@[b[p][q] as int], (p, q));
                        } else {
                            assert(filled_at(b, source.0 as int, source.1 as int));
                            lemma_linked_step(b, target.0 as int, target.1 as int, t, self.seeds@[t as int], (source.0 as int, source.1 as int));
                        }
                    }
                    assert forall|p: int, q: int| filled_at(b, p, q) implies b1[p][q] == b[p][q] by {}
                    assert forall|p: int, q: int| in_grid(b1, p, q) implies #[trigger] b1[p][q] <= tiles by {}
                    assert forall|k: int| 1 <= k <= tiles implies in_grid(b1, #[trigger] self.seeds@[k].0, self.seeds@[k].1)
                        && b1[self.seeds@[k].0][self.seeds@[k].1] == k by {
                        assert(filled_at(b, self.seeds@[k].0, self.seeds@[k].1));
                    }
                    if is_biased(mode) {
                        assert forall|h: int, w: int|
                            in_grid(b1, h, w) && #[trigger] b1[h][w] == tiles implies h == self.seeds@[tiles as int].0
                            && w == self.seeds@[tiles as int].1 by {
                            assert(b[h][w] == tiles);
                        }
                    }
                }
            } else {
                proof {
                    if mode == Mode::UniformExtendSource {
                        let i = choose|i: int|
                            0 <= i < sources0.len() && self.sources@ == sources0.remove(i) && !has_empty_neighbor(
                                b,
                                sources0[i].0 as int,
                                sources0[i].1 as int,
                            );
                        assert forall|h: int, w: int|
                            #![trigger has_empty_neighbor(b, h, w)]
                            filled_at(b, h, w) && has_empty_neighbor(b, h, w) implies self.sources@.contains(
                            (h as usize, w as usize),
                        ) by {
                            if (h as usize, w as usize) == sources0[i] {
                                assert(sources0[i].0 as int == h && sources0[i].1 as int == w);
                            }
                            lemma_remove_keeps(sources0, i, (h as usize, w as usize));
                        }
                        assert forall|k: int| 0 <= k < self.sources@.len() implies filled_at(
                            b,
                            #[trigger] self.sources@[k].0 as int,
                            self.sources@[k].1 as int,
                        ) by {
                            if k < i {
                                assert(self.sources@[k] == sources0[k]);
                            } else {
                                assert(self.sources@[k] == sources0[k + 1]);
                            }
                        }
                    } else if mode == Mode::UniformFreeTarget {
                        let i = choose|i: int|
                            0 <= i < frontier0.len() && self.frontier@ == frontier0.remove(i) && (!empty_at(
                                b,
                                frontier0[i].0 as int,
                                frontier0[i].1 as int,
                            ) || !has_filled_neighbor(b, frontier0[i].0 as int, frontier0[i].1 as int));
                        lemma_remove_distinct(frontier0, i);
                        assert forall|h: int, w: int|
                            #![trigger has_filled_neighbor(b, h, w)]
                            empty_at(b, h, w) && has_filled_neighbor(b, h, w) && (h, w) != no_cell()
                            implies self.frontier@.contains((h as usize, w as usize)) by {
                            if (h as usize, w as usize) == frontier0[i] {
                                assert(frontier0[i].0 as int == h && frontier0[i].1 as int == w);
                            }
                            lemma_remove_keeps(frontier0, i, (h as usize, w as usize));
                        }
                        assert forall|k: int| 0 <= k < self.frontier@.len() implies in_grid(
                            b,
                            #[trigger] self.frontier@[k].0 as int,
                            self.frontier@[k].1 as int,
                        ) by {
                            if k < i {
                                assert(self.frontier@[k] == frontier0[k]);
                            } else {
                                assert(self.frontier@[k] == frontier0[k + 1]);
                            }
                        }
                    } else {
                        let (t, j) = choose|t: int, j: int|
                            0 <= t < cells0.len() && 0 <= j < cells0[t]@.len() && self.cells@.len() == cells0.len()
                                && self.cells@[t]@ == cells0[t]@.remove(j) && (forall|u: int|
                                0 <= u < cells0.len() && u != t ==> #[trigger] self.cells@[u] == cells0[u])
                                && !has_empty_neighbor(b, cells0[t]@[j].0 as int, cells0[t]@[j].1 as int);
                        lemma_total_update(cells0, t, self.cells@[t]);
                        assert(self.cells@ =~= cells0.update(t, self.cells@[t]));
                        assert forall|h: int, w: int|
                            #![trigger has_empty_neighbor(b, h, w)]
                            filled_at(b, h, w) && has_empty_neighbor(b, h, w)
                                implies self.cells@[b[h][w] as int]@.contains((h as usize, w as usize)) by {
                            if b[h][w] as int == t {
                                if (h as usize, w as usize) == cells0[t]@[j] {
                                    assert(cells0[t]@[j].0 as int == h && cells0[t]@[j].1 as int == w);
                                }
                                lemma_remove_keeps(cells0[t]@, j, (h as usize, w as usize));
                            }
                        }
                        assert forall|u: int, k: int|
                            #![trigger self.cells@[u]@[k]]
                            0 <= u < self.cells@.len() && 0 <= k < self.cells@[u]@.len() implies {
                            let c = self.cells@[u]@[k];
                            filled_at(b, c.0 as int, c.1 as int) && b[c.0 as int][c.1 as int] == u
                        } by {
                            if u == t {
                                if k < j {
                                    assert(self.cells@[u]@[k] == cells0[u]@[k]);
                                } else {
                                    assert(self.cells@[u]@[k] == cells0[u]@[k + 1]);
                                }
                            }
                        }
                    }
                }
            }
        }
    }

    /// Writes `tile` into the empty cell (h, w) and records the cell everywhere
    /// it may serve: as a source, in the tile's list, and through its empty
    /// neighbours in the frontier.
    fn fill(&mut self, tile: usize, h: usize, w: usize)
        requires
            old(self).inv_core(),
            old(self).inv_sources(),
            old(self).inv_frontier((h as int, w as int)),
            old(self).inv_cells(),
            empty_at(old(self).b(), h as int, w as int),
            1 <= tile <= old(self).tiles,
        ensures
            final(self).inv_core(),
            final(self).inv_sources(),
            final(self).inv_frontier(no_cell()),
            final(self).inv_cells(),
            final(self).b() == with_cell(old(self).b(), h as int, w as int, tile),
            final(self).tiles == old(self).tiles,
            final(self).seeds == old(self).seeds,
            final(self).remaining + 1 == old(self).remaining,
            final(self).sources@.len() == old(self).sources@.len() + 1,
            final(self).frontier@.len() <= old(self).frontier@.len() + 4,
            total_len(final(self).cells@) == total_len(old(self).cells@) + 1,
    {
        let ghost b0 = self.b();
        let ghost old_cells = self.cells@;
        let ghost old_sources = self.sources@;
        let ghost old_frontier = self.frontier@;
        proof {
            assert(b0[h as int] == self.board@[h as int]@);
            lemma_fill(b0, h as int, w as int, tile);
        }
        self.board[h][w] = tile;
        let ghost b1 = self.b();
        assert(b1 =~= with_cell(b0, h as int, w as int, tile));
        self.remaining = self.remaining - 1;
        let ghost old_list = self.cells@[tile as int];
        self.cells[tile].push((h, w));
        proof {
            lemma_total_update(old_cells, tile as int, self.cells@[tile as int]);
            assert(self.cells@ == old_cells.update(tile as int, self.cells@[tile as int]));
            assert(self.cells@[tile as int]@ == old_list@.push((h, w)));
        }
        let ghost new_cells = self.cells@;
        self.sources.push((h, w));
        let ns = find_unused_neighbors(h, w, &self.board);
        add_to_frontier(&mut self.frontier, &ns);
        proof {
            let b = b1;
            assert(is_square(b)) by {
                assert forall|i: int| 0 <= i < b.len() implies #[trigger] b[i].len() == b.len() by {
                    assert(b0[i].len() == b0.len());
                }
            }
            // cells filled before keep their tiles; empty cells after were empty before
            assert forall|p: int, q: int| filled_at(b0, p, q) implies filled_at(b, p, q) && b[p][q]
                == b0[p][q] by {}
            assert forall|p: int, q: int| empty_at(b, p, q) implies empty_at(b0, p, q) by {}
            assert forall|p: int, q: int|
                #![trigger has_empty_neighbor(b, p, q)]
                filled_at(b, p, q) && has_empty_neighbor(b, p, q) implies self.sources@.contains(
                (p as usize, q as usize),
            ) && self.cells@[b[p][q] as int]@.contains((p as usize, q as usize)) by {
                if p == h && q == w {
                    assert(self.sources@[old_sources.len() as int] == (h, w));
                    assert(self.cells@[tile as int]@[old_list@.len() as int] == (h, w));
                } else {
                    assert(has_empty_neighbor(b0, p, q));
                    let m = choose|m: int| 0 <= m < old_sources.len() && old_sources[m] == (p as usize, q as usize);
                    assert(self.sources@[m] == old_sources[m]);
                    let t = b[p][q] as int;
                    let list = old_cells[t]@;
                    let j = choose|j: int| 0 <= j < list.len() && list[j] == (p as usize, q as usize);
                    assert(self.cells@ == new_cells);
                    if t == tile {
                        assert(new_cells[t]@ == list.push((h, w)));
                    } else {
                        assert(new_cells[t] == old_cells[t]);
                    }
                    assert(new_cells[t]@[j] == list[j]);
                }
            }
            assert forall|i: int| 0 <= i < self.sources@.len() implies filled_at(
                b,
                #[trigger] self.sources@[i].0 as int,
                self.sources@[i].1 as int,
            ) by {
                if i < old_sources.len() {
                    assert(self.sources@[i] == old_sources[i]);
                }
            }
            assert forall|t: int, i: int|
                #![trigger self.cells@[t]@[i]]
                0 <= t < self.cells@.len() && 0 <= i < self.cells@[t]@.len() implies {
                let c = self.cells@[t]@[i];
                filled_at(b, c.0 as int, c.1 as int) && b[c.0 as int][c.1 as int] == t
            } by {
                if t != tile || i < old_list@.len() {
                    assert(self.cells@[t]@[i] == old_cells[t]@[i]);
                }
            }
            assert forall|i: int| 0 <= i < self.frontier@.len() implies in_grid(
                b,
                #[trigger] self.frontier@[i].0 as int,
                self.frontier@[i].1 as int,
            ) by {
                if i < old_frontier.len() {
                    assert(self.frontier@.subrange(0, old_frontier.len() as int)[i] == old_frontier[i]);
                    assert(self.frontier@[i] == old_frontier[i]);
                } else {
                    let j = choose|j: int| 0 <= j < ns@.len() && ns@[j] == self.frontier@[i];
                    assert(empty_at(b, ns@[j].0 as int, ns@[j].1 as int));
                }
            }
            assert forall|p: int, q: int|
                #![trigger has_filled_neighbor(b, p, q)]
                empty_at(b, p, q) && has_filled_neighbor(b, p, q) && (p, q) != no_cell()
                    implies self.frontier@.contains((p as usize, q as usize)) by {
                if adjacent(h as int, w as int, p, q) {
                    let j = choose|j: int| 0 <= j < ns@.len() && ns@[j] == (p as usize, q as usize);
                    assert(self.frontier@.contains(ns@[j]));
                } else {
                    assert(has_filled_neighbor(b0, p, q));
                    assert((p, q) != (h as int, w as int));
                    let m = choose|m: int| 0 <= m < old_frontier.len() && old_frontier[m] == (p as usize, q as usize);
                    assert(self.frontier@.subrange(0, old_frontier.len() as int)[m] == old_frontier[m]);
                    assert(self.frontier@[m] == old_frontier[m]);
                }
            }
        }
    }
}

/// Grows a `size` by `size` board of `tiles` tiles with the given strategy,
/// drawing from a generator seeded with `seed`: each tile starts on an empty
/// cell drawn uniformly, in the order of the ids, and the tiles then grow one
/// cell at a time until no cell is empty.
pub fn gen_board(strategy: Mode, size: usize, tiles: usize, seed: u64) -> (r: Result<Board, GrowthError>)
    requires
        size * size < usize::MAX,
    ensures
        match growth_error(strategy, size as nat, tiles as nat) {
            Some(e) => r == Err::<Board, GrowthError>(e),
            None => r matches Ok(board) && fully_tiled(cells_of(&board), size as nat, tiles as nat) && (
            forall|t: int| 1 <= t <= tiles ==> #[trigger] tile_connected(cells_of(&board), t)) && (tiles
                == size * size ==> one_cell_each(cells_of(&board))),
        },
{
    if size == 0 {
        return Err(GrowthError::InvalidSize);
    }
    if tiles == 0 || tiles > size * size {
        return Err(GrowthError::InvalidTileCount);
    }
    if tiles == 1 && size > 1 && (strategy == Mode::BiasedToOrigin || strategy == Mode::BiasedFromOrigin) {
        return Err(GrowthError::NoTileToGrow);
    }
    let mut rng = seeded_generator(seed);
    let mut growth = Growth::new(size, tiles);
    growth.place_seeds(strategy, &mut rng);
    proof {
        let b = growth.b();
        if tiles == size * size {
            assert forall|h1: int, w1: int, h2: int, w2: int|
                in_grid(b, h1, w1) && in_grid(b, h2, w2) && #[trigger] b[h1][w1] == #[trigger] b[h2][w2]
                    implies h1 == h2 && w1 == w2 by {
                lemma_full(b);
                assert(filled_at(b, h1, w1));
                assert(filled_at(b, h2, w2));
            }
        }
    }
    if growth.remaining > 0 {
        growth.grow_all(strategy, &mut rng);
    }
    let ghost b = growth.b();
    proof {
        lemma_full(b);
        assert forall|t: int| 1 <= t <= tiles implies #[trigger] covers(b, t) by {
            let s = growth.seeds@[t];
            assert(in_grid(b, s.0, s.1) && b[s.0][s.1] == t);
        }
        assert forall|t: int| 1 <= t <= tiles implies #[trigger] tile_connected(b, t) by {
            let s = growth.seeds@[t];
            assert(in_grid(b, s.0, s.1) && b[s.0][s.1] == t);
            assert forall|h: int, w: int| in_grid(b, h, w) && b[h][w] == t implies #[trigger] linked(b, t, s, (h, w)) by {
                assert(filled_at(b, h, w));
            }
        }
    }
    Ok(growth.board)
}

} // verus!
