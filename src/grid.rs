use vstd::prelude::*;

use crate::board::is_square;

verus! {

/// The cell at row `h`, column `w` lies on the board.
pub open spec fn in_grid(b: Seq<Seq<usize>>, h: int, w: int) -> bool {
    0 <= h < b.len() && 0 <= w < b.len()
}

/// The cell at row `h`, column `w` lies on the board and is empty.
pub open spec fn empty_at(b: Seq<Seq<usize>>, h: int, w: int) -> bool {
    in_grid(b, h, w) && b[h][w] == 0
}

/// The cell at row `h`, column `w` lies on the board and holds a tile.
pub open spec fn filled_at(b: Seq<Seq<usize>>, h: int, w: int) -> bool {
    in_grid(b, h, w) && b[h][w] != 0
}

/// One of the four cells above, left of, below or right of (h, w) is empty.
pub open spec fn has_empty_neighbor(b: Seq<Seq<usize>>, h: int, w: int) -> bool {
    empty_at(b, h - 1, w) || empty_at(b, h, w - 1) || empty_at(b, h + 1, w) || empty_at(b, h, w + 1)
}

/// One of the four cells above, left of, below or right of (h, w) holds a tile.
pub open spec fn has_filled_neighbor(b: Seq<Seq<usize>>, h: int, w: int) -> bool {
    filled_at(b, h - 1, w) || filled_at(b, h, w - 1) || filled_at(b, h + 1, w) || filled_at(b, h, w + 1)
}

/// The two cells share a side.
pub open spec fn adjacent(h1: int, w1: int, h2: int, w2: int) -> bool {
    (h1 == h2 && (w1 == w2 + 1 || w2 == w1 + 1)) || (w1 == w2 && (h1 == h2 + 1 || h2 == h1 + 1))
}

/// A filled cell holds a tile of `1..=hi`.
pub open spec fn low_tile(b: Seq<Seq<usize>>, hi: int, h: int, w: int) -> bool {
    in_grid(b, h, w) && 1 <= b[h][w] <= hi
}

/// `e` names a cell holding a tile of `1..=hi` and an empty cell beside it.
pub open spec fn growth_edge(b: Seq<Seq<usize>>, hi: int, e: (int, int, int, int)) -> bool {
    &&& low_tile(b, hi, e.0, e.1)
    &&& empty_at(b, e.2, e.3)
    &&& adjacent(e.0, e.1, e.2, e.3)
}

/// The number of empty cells of a row.
pub open spec fn row_empties(r: Seq<usize>) -> nat
    decreases r.len(),
{
    if r.len() == 0 {
        0
    } else {
        row_empties(r.drop_last()) + if r.last() == 0 {
            1nat
        } else {
            0nat
        }
    }
}

/// The number of empty cells of a board.
pub open spec fn empties(b: Seq<Seq<usize>>) -> nat
    decreases b.len(),
{
    if b.len() == 0 {
        0
    } else {
        empties(b.drop_last()) + row_empties(b.last())
    }
}

/// The board with `t` written at row `h`, column `w`.
pub open spec fn with_cell(b: Seq<Seq<usize>>, h: int, w: int, t: usize) -> Seq<Seq<usize>> {
    b.update(h, b[h].update(w, t))
}

proof fn lemma_row_fill(r: Seq<usize>, w: int, t: usize)
    requires
        0 <= w < r.len(),
        r[w] == 0,
        t != 0,
    ensures
        row_empties(r.update(w, t)) + 1 == row_empties(r),
    decreases r.len(),
{
    let s = r.update(w, t);
    if w == r.len() - 1 {
        assert(s.drop_last() =~= r.drop_last());
    } else {
        assert(s.drop_last() =~= r.drop_last().update(w, t));
        lemma_row_fill(r.drop_last(), w, t);
    }
}

/// Writing a tile into an empty cell leaves one empty cell fewer.
pub proof fn lemma_fill(b: Seq<Seq<usize>>, h: int, w: int, t: usize)
    requires
        0 <= h < b.len(),
        0 <= w < b[h].len(),
        b[h][w] == 0,
        t != 0,
    ensures
        empties(with_cell(b, h, w, t)) + 1 == empties(b),
    decreases b.len(),
{
    let s = with_cell(b, h, w, t);
    if h == b.len() - 1 {
        assert(s.drop_last() =~= b.drop_last());
        lemma_row_fill(b[h], w, t);
    } else {
        assert(s.drop_last() =~= with_cell(b.drop_last(), h, w, t));
        lemma_fill(b.drop_last(), h, w, t);
    }
}

proof fn lemma_row_full(r: Seq<usize>)
    requires
        row_empties(r) == 0,
    ensures
        forall|w: int| 0 <= w < r.len() ==> r[w] != 0,
    decreases r.len(),
{
    if r.len() > 0 {
        lemma_row_full(r.drop_last());
        assert forall|w: int| 0 <= w < r.len() implies r[w] != 0 by {
            if w < r.len() - 1 {
                assert(r[w] == r.drop_last()[w]);
            }
        }
    }
}

/// A board without empty cells holds a tile in every cell.
pub proof fn lemma_full(b: Seq<Seq<usize>>)
    requires
        empties(b) == 0,
    ensures
        forall|h: int, w: int| 0 <= h < b.len() && 0 <= w < b[h].len() ==> b[h][w] != 0,
    decreases b.len(),
{
    if b.len() > 0 {
        lemma_full(b.drop_last());
        lemma_row_full(b.last());
        assert forall|h: int, w: int| 0 <= h < b.len() && 0 <= w < b[h].len() implies b[h][w] != 0 by {
            if h < b.len() - 1 {
                assert(b[h] == b.drop_last()[h]);
            }
        }
    }
}

proof fn lemma_row_no_zero(r: Seq<usize>)
    requires
        forall|w: int| 0 <= w < r.len() ==> r[w] != 0,
    ensures
        row_empties(r) == 0,
    decreases r.len(),
{
    if r.len() > 0 {
        lemma_row_no_zero(r.drop_last());
    }
}

proof fn lemma_no_zero(b: Seq<Seq<usize>>)
    requires
        forall|h: int, w: int| 0 <= h < b.len() && 0 <= w < b[h].len() ==> b[h][w] != 0,
    ensures
        empties(b) == 0,
    decreases b.len(),
{
    if b.len() > 0 {
        assert forall|h: int, w: int|
            0 <= h < b.drop_last().len() && 0 <= w < b.drop_last()[h].len() implies b.drop_last()[h][w]
            != 0 by {
            assert(b.drop_last()[h] == b[h]);
        }
        lemma_no_zero(b.drop_last());
        lemma_row_no_zero(b.last());
    }
}

/// A square board with an empty cell shows one.
pub proof fn lemma_some_empty(b: Seq<Seq<usize>>) -> (u: (int, int))
    requires
        is_square(b),
        empties(b) > 0,
    ensures
        empty_at(b, u.0, u.1),
{
    if !(exists|h: int, w: int| empty_at(b, h, w)) {
        assert forall|h: int, w: int| 0 <= h < b.len() && 0 <= w < b[h].len() implies b[h][w] != 0 by {
            assert(!empty_at(b, h, w));
        }
        lemma_no_zero(b);
    }
    let (h, w) = choose|h: int, w: int| empty_at(b, h, w);
    (h, w)
}

/// The count of empty cells grows row by row.
pub proof fn lemma_empties_step(b: Seq<Seq<usize>>, h: int)
    requires
        0 <= h < b.len(),
    ensures
        empties(b.subrange(0, h + 1)) == empties(b.subrange(0, h)) + row_empties(b[h]),
{
    assert(b.subrange(0, h + 1).drop_last() =~= b.subrange(0, h));
}

/// The count of empty cells of a row grows cell by cell.
pub proof fn lemma_row_empties_step(r: Seq<usize>, w: int)
    requires
        0 <= w < r.len(),
    ensures
        row_empties(r.subrange(0, w + 1)) == row_empties(r.subrange(0, w)) + if r[w] == 0 {
            1nat
        } else {
            0nat
        },
{
    assert(r.subrange(0, w + 1).drop_last() =~= r.subrange(0, w));
}

proof fn lemma_row_blank(r: Seq<usize>)
    requires
        forall|w: int| 0 <= w < r.len() ==> r[w] == 0,
    ensures
        row_empties(r) == r.len(),
    decreases r.len(),
{
    if r.len() > 0 {
        lemma_row_blank(r.drop_last());
    }
}

/// A board of `k` empty rows of length `n` has `k * n` empty cells.
pub proof fn lemma_blank(b: Seq<Seq<usize>>, n: nat)
    requires
        forall|h: int| 0 <= h < b.len() ==> #[trigger] b[h].len() == n,
        forall|h: int, w: int| 0 <= h < b.len() && 0 <= w < n ==> b[h][w] == 0,
    ensures
        empties(b) == b.len() * n,
    decreases b.len(),
{
    if b.len() > 0 {
        let k = b.len();
        assert forall|h: int| 0 <= h < b.drop_last().len() implies #[trigger] b.drop_last()[h].len() == n by {
            assert(b.drop_last()[h] == b[h]);
        }
        lemma_blank(b.drop_last(), n);
        lemma_row_blank(b.last());
        assert((k - 1) * n + n == k * n) by (nonlinear_arith);
    }
}

/// Walking along row `r` from a cell with a tile of `1..=hi` to an empty cell,
/// over cells that hold no other tile, meets a tile cell beside an empty one.
proof fn lemma_row_edge(b: Seq<Seq<usize>>, hi: int, r: int, c0: int, c1: int) -> (e: (int, int, int, int))
    requires
        is_square(b),
        low_tile(b, hi, r, c0),
        empty_at(b, r, c1),
        forall|c: int| (c0 <= c <= c1 || c1 <= c <= c0) ==> #[trigger] b[r][c] <= hi,
    ensures
        growth_edge(b, hi, e),
    decreases if c1 > c0 { c1 - c0 } else { c0 - c1 },
{
    let next = if c1 > c0 { c0 + 1 } else { c0 - 1 };
    assert(b[r][next] <= hi);
    if b[r][next] == 0 {
        (r, c0, r, next)
    } else {
        lemma_row_edge(b, hi, r, next, c1)
    }
}

/// The same walk along column `c`.
proof fn lemma_col_edge(b: Seq<Seq<usize>>, hi: int, c: int, r0: int, r1: int) -> (e: (int, int, int, int))
    requires
        is_square(b),
        low_tile(b, hi, r0, c),
        empty_at(b, r1, c),
        forall|r: int| (r0 <= r <= r1 || r1 <= r <= r0) ==> #[trigger] b[r][c] <= hi,
    ensures
        growth_edge(b, hi, e),
    decreases if r1 > r0 { r1 - r0 } else { r0 - r1 },
{
    let next = if r1 > r0 { r0 + 1 } else { r0 - 1 };
    assert(b[next][c] <= hi);
    if b[next][c] == 0 {
        (r0, c, next, c)
    } else {
        lemma_col_edge(b, hi, c, next, r1)
    }
}

/// On a board where at most one cell, `k`, holds a tile above `hi`, a cell with
/// a tile of `1..=hi` and an empty cell imply a tile cell of `1..=hi` beside an
/// empty cell.
pub proof fn lemma_edge_exists(
    b: Seq<Seq<usize>>,
    hi: int,
    k: (int, int),
    a: (int, int),
    u: (int, int),
) -> (e: (int, int, int, int))
    requires
        is_square(b),
        low_tile(b, hi, a.0, a.1),
        empty_at(b, u.0, u.1),
        forall|h: int, w: int| in_grid(b, h, w) && #[trigger] b[h][w] > hi ==> h == k.0 && w == k.1,
    ensures
        growth_edge(b, hi, e),
{
    let n = b.len() as int;
    let blocked = in_grid(b, k.0, k.1) && b[k.0][k.1] > hi;
    let on_path1 = (k.0 == a.0 && (a.1 <= k.1 <= u.1 || u.1 <= k.1 <= a.1)) || (k.1 == u.1 && (a.0
        <= k.0 <= u.0 || u.0 <= k.0 <= a.0));
    let on_path2 = (k.1 == a.1 && (a.0 <= k.0 <= u.0 || u.0 <= k.0 <= a.0)) || (k.0 == u.0 && (a.1
        <= k.1 <= u.1 || u.1 <= k.1 <= a.1));
    if !blocked || !on_path1 {
        // along row a.0 to column u.1, then along column u.1
        assert(b[a.0][u.1] <= hi);
        if b[a.0][u.1] == 0 {
            lemma_row_edge(b, hi, a.0, a.1, u.1)
        } else {
            lemma_col_edge(b, hi, u.1, a.0, u.0)
        }
    } else if !on_path2 {
        // along column a.1 to row u.0, then along row u.0
        assert(b[u.0][a.1] <= hi);
        if b[u.0][a.1] == 0 {
            lemma_col_edge(b, hi, a.1, a.0, u.0)
        } else {
            lemma_row_edge(b, hi, u.0, a.1, u.1)
        }
    } else if a.0 == u.0 {
        // the blocked cell lies between them on their row: go round it on a neighbouring row
        let r = if a.0 + 1 < n { a.0 + 1 } else { a.0 - 1 };
        assert(b[r][a.1] <= hi);
        assert(b[r][u.1] <= hi);
        if b[r][a.1] == 0 {
            (a.0, a.1, r, a.1)
        } else if b[r][u.1] == 0 {
            lemma_row_edge(b, hi, r, a.1, u.1)
        } else {
            (r, u.1, u.0, u.1)
        }
    } else {
        assert(a.1 == u.1);
        let c = if a.1 + 1 < n { a.1 + 1 } else { a.1 - 1 };
        assert(b[a.0][c] <= hi);
        assert(b[u.0][c] <= hi);
        if b[a.0][c] == 0 {
            (a.0, a.1, a.0, c)
        } else if b[u.0][c] == 0 {
            lemma_col_edge(b, hi, c, a.0, u.0)
        } else {
            (u.0, c, u.0, u.1)
        }
    }
}

/// `path` is a walk over side-adjacent cells of `b` that all hold tile `t`.
pub open spec fn tile_walk(b: Seq<Seq<usize>>, t: int, path: Seq<(int, int)>) -> bool {
    &&& path.len() >= 1
    &&& forall|i: int|
        #![trigger path[i]]
        0 <= i < path.len() ==> in_grid(b, path[i].0, path[i].1) && b[path[i].0][path[i].1] == t
    &&& forall|i: int|
        #![trigger path[i], path[i + 1]]
        0 <= i < path.len() - 1 ==> adjacent(path[i].0, path[i].1, path[i + 1].0, path[i + 1].1)
}

/// A walk inside tile `t` leads from cell `s` to cell `c`.
pub open spec fn linked(b: Seq<Seq<usize>>, t: int, s: (int, int), c: (int, int)) -> bool {
    exists|path: Seq<(int, int)>| tile_walk(b, t, path) && path[0] == s && path.last() == c
}

/// Tile `t` covers a cell from which a walk inside the tile leads to each of
/// its cells: the tile is a single 4-connected region.
pub open spec fn tile_connected(b: Seq<Seq<usize>>, t: int) -> bool {
    exists|s: (int, int)|
        {
            &&& in_grid(b, s.0, s.1)
            &&& b[s.0][s.1] == t
            &&& forall|h: int, w: int| in_grid(b, h, w) && b[h][w] == t ==> #[trigger] linked(b, t, s, (h, w))
        }
}

/// A cell is linked to itself.
pub proof fn lemma_linked_self(b: Seq<Seq<usize>>, t: int, c: (int, int))
    requires
        in_grid(b, c.0, c.1),
        b[c.0][c.1] == t,
    ensures
        linked(b, t, c, c),
{
    let path = seq![c];
    assert(tile_walk(b, t, path));
    assert(path[0] == c && path.last() == c);
}

/// Writing into an empty cell keeps every walk inside a tile.
pub proof fn lemma_linked_kept(b: Seq<Seq<usize>>, h: int, w: int, v: usize, t: int, s: (int, int), c: (int, int))
    requires
        is_square(b),
        empty_at(b, h, w),
        t != 0,
        linked(b, t, s, c),
    ensures
        linked(with_cell(b, h, w, v), t, s, c),
{
    let b1 = with_cell(b, h, w, v);
    let path = choose|path: Seq<(int, int)>| tile_walk(b, t, path) && path[0] == s && path.last() == c;
    assert forall|i: int| #![trigger path[i]] 0 <= i < path.len() implies in_grid(b1, path[i].0, path[i].1)
        && b1[path[i].0][path[i].1] == t by {
        assert(b[path[i].0][path[i].1] == t);
    }
    assert(tile_walk(b1, t, path));
    assert(path[0] == s && path.last() == c);
}

/// Writing tile `t` into an empty cell beside a cell linked to `s` links the new
/// cell to `s` too.
pub proof fn lemma_linked_step(b: Seq<Seq<usize>>, h: int, w: int, t: usize, s: (int, int), c: (int, int))
    requires
        is_square(b),
        empty_at(b, h, w),
        t != 0,
        linked(b, t as int, s, c),
        adjacent(c.0, c.1, h, w),
    ensures
        linked(with_cell(b, h, w, t), t as int, s, (h, w)),
{
    let b1 = with_cell(b, h, w, t);
    lemma_linked_kept(b, h, w, t, t as int, s, c);
    let path = choose|path: Seq<(int, int)>| tile_walk(b1, t as int, path) && path[0] == s && path.last() == c;
    let longer = path.push((h, w));
    assert forall|i: int| #![trigger longer[i]] 0 <= i < longer.len() implies in_grid(b1, longer[i].0, longer[i].1)
        && b1[longer[i].0][longer[i].1] == t by {
        if i < path.len() {
            assert(longer[i] == path[i]);
        }
    }
    assert forall|i: int|
        #![trigger longer[i], longer[i + 1]]
        0 <= i < longer.len() - 1 implies adjacent(longer[i].0, longer[i].1, longer[i + 1].0, longer[i + 1].1) by {
        if i < path.len() - 1 {
            assert(longer[i] == path[i] && longer[i + 1] == path[i + 1]);
        } else {
            assert(longer[i] == c);
        }
    }
    assert(tile_walk(b1, t as int, longer));
    assert(longer[0] == s && longer.last() == (h, w));
}

} // verus!
