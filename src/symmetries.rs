use vstd::prelude::*;

use crate::board::{cells_of, is_square, Board};

verus! {

/// Each row of `b` read from right to left.
pub open spec fn mirrored(b: Seq<Seq<usize>>) -> Seq<Seq<usize>> {
    Seq::new(b.len(), |i: int| Seq::new(b[i].len(), |j: int| b[i][b[i].len() - 1 - j]))
}

/// A clockwise quarter turn of a square board: the cell at row `h`, column `w`
/// moves to row `w`, column `n - 1 - h`.
pub open spec fn turned(b: Seq<Seq<usize>>) -> Seq<Seq<usize>> {
    Seq::new(b.len(), |i: int| Seq::new(b.len(), |j: int| b[b.len() - 1 - j][i]))
}

/// `k` successive quarter turns.
pub open spec fn turned_times(b: Seq<Seq<usize>>, k: nat) -> Seq<Seq<usize>>
    decreases k,
{
    if k == 0 {
        b
    } else {
        turned(turned_times(b, (k - 1) as nat))
    }
}

/// The `k`-th of the eight orientations: the identity and three quarter turns,
/// then the mirror image of each of those four.
pub open spec fn orientation(b: Seq<Seq<usize>>, k: nat) -> Seq<Seq<usize>> {
    if k < 4 {
        turned_times(b, k)
    } else {
        mirrored(turned_times(b, (k - 4) as nat))
    }
}

/// The board mirrored when `m`, unchanged otherwise.
pub open spec fn mirrored_if(b: Seq<Seq<usize>>, m: bool) -> Seq<Seq<usize>> {
    if m {
        mirrored(b)
    } else {
        b
    }
}

/// The board mirrored when `first`, then turned `turns` quarter turns, then
/// mirrored when `last`.
pub open spec fn transformed(b: Seq<Seq<usize>>, first: bool, turns: nat, last: bool) -> Seq<Seq<usize>> {
    mirrored_if(turned_times(mirrored_if(b, first), turns), last)
}

proof fn lemma_mirror_twice(b: Seq<Seq<usize>>)
    ensures
        mirrored(mirrored(b)) == b,
{
    assert forall|i: int| 0 <= i < b.len() implies mirrored(mirrored(b))[i] =~= b[i] by {}
    assert(mirrored(mirrored(b)) =~= b);
}

proof fn lemma_turns_add(b: Seq<Seq<usize>>, p: nat, q: nat)
    ensures
        turned_times(turned_times(b, p), q) == turned_times(b, p + q),
    decreases q,
{
    if q > 0 {
        lemma_turns_add(b, p, (q - 1) as nat);
        assert(turned_times(b, p + q) == turned(turned_times(b, (p + q - 1) as nat)));
    }
}

proof fn lemma_full_turn(b: Seq<Seq<usize>>)
    requires
        is_square(b),
    ensures
        turned_times(b, 4) == b,
{
    reveal_with_fuel(turned_times, 5);
    let n = b.len() as int;
    let half = turned(turned(b));
    assert forall|i: int, j: int| 0 <= i < n && 0 <= j < n implies half[i][j] == b[n - 1 - i][n - 1 - j] by {}
    let whole = turned(turned(half));
    assert forall|i: int| 0 <= i < n implies whole[i] =~= b[i] by {
        assert forall|j: int| 0 <= j < n implies whole[i][j] == b[i][j] by {
            assert(whole[i][j] == half[n - 1 - i][n - 1 - j]);
        }
    }
    assert(whole =~= b);
}

/// Any two of the eight orientations of a square board are related by a
/// mirror, some quarter turns and a mirror: each is the other turned and
/// reflected.
pub proof fn lemma_orientations_related(b: Seq<Seq<usize>>, i: nat, j: nat)
    requires
        is_square(b),
        i < 8,
        j < 8,
    ensures
        exists|first: bool, turns: nat, last: bool|
            transformed(orientation(b, i), first, turns, last) == orientation(b, j),
{
    let a = i >= 4;
    let p: nat = if a { (i - 4) as nat } else { i };
    let c = j >= 4;
    let q: nat = if c { (j - 4) as nat } else { j };
    let turns: nat = (4 - p + q) as nat;
    let x = orientation(b, i);
    assert(x == mirrored_if(turned_times(b, p), a));
    lemma_mirror_twice(turned_times(b, p));
    assert(mirrored_if(x, a) == turned_times(b, p));
    lemma_turns_add(b, p, turns);
    lemma_turns_add(b, 4, q);
    lemma_full_turn(b);
    assert(turned_times(b, p + turns) == turned_times(turned_times(b, 4), q));
    assert(transformed(x, a, turns, c) == orientation(b, j));
}

/// Reverses every row of the board.
fn flip1(board: &Board) -> (r: Board)
    ensures
        cells_of(&r) == mirrored(cells_of(board)),
{
    let mut r: Board = Vec::new();
    let mut i: usize = 0;
    while i < board.len()
        invariant
            i <= board.len(),
            r@.len() == i,
            forall|k: int| 0 <= k < i ==> #[trigger] r@[k]@ == mirrored(cells_of(board))[k],
        decreases board.len() - i,
    {
        let row = &board[i];
        let mut out: Vec<usize> = Vec::new();
        let mut j: usize = row.len();
        while j > 0
            invariant
                j <= row.len(),
                i < board.len(),
                row == board@[i as int],
                out@.len() == row.len() - j,
                forall|m: int| 0 <= m < out@.len() ==> #[trigger] out@[m] == row@[row.len() - 1 - m],
            decreases j,
        {
            j = j - 1;
            out.push(row[j]);
        }
        assert(out@ =~= mirrored(cells_of(board))[i as int]);
        r.push(out);
        i = i + 1;
    }
    assert(cells_of(&r) =~= mirrored(cells_of(board)));
    r
}

/// Turns a square board a quarter turn clockwise.
fn rot90(board: &Board) -> (r: Board)
    requires
        is_square(cells_of(board)),
    ensures
        cells_of(&r) == turned(cells_of(board)),
        is_square(cells_of(&r)),
{
    let size = board.len();
    let ghost b = cells_of(board);
    let mut r: Board = Vec::new();
    let mut w: usize = 0;
    while w < size
        invariant
            size == board.len(),
            b == cells_of(board),
            is_square(b),
            w <= size,
            r@.len() == w,
            forall|k: int| 0 <= k < w ==> #[trigger] r@[k]@ == turned(b)[k],
        decreases size - w,
    {
        let mut out: Vec<usize> = Vec::new();
        let mut j: usize = 0;
        while j < size
            invariant
                size == board.len(),
                b == cells_of(board),
                is_square(b),
                w < size,
                j <= size,
                out@.len() == j,
                forall|m: int| 0 <= m < j ==> #[trigger] out@[m] == b[size - 1 - m][w as int],
            decreases size - j,
        {
            assert(b[size - 1 - j].len() == size);
            out.push(board[size - 1 - j][w]);
            j = j + 1;
        }
        assert(out@ =~= turned(b)[w as int]);
        r.push(out);
        w = w + 1;
    }
    assert(cells_of(&r) =~= turned(b));
    r
}

/// The eight orientations of a square board, in the order of `orientation`.
pub fn generate_symmetric_boards(board: &Board) -> (r: Vec<Board>)
    requires
        is_square(cells_of(board)),
    ensures
        r@.len() == 8,
        forall|k: int| 0 <= k < 8 ==> cells_of(&#[trigger] r@[k]) == orientation(cells_of(board), k as nat),
{
    let ghost b = cells_of(board);
    let r1 = rot90(board);
    let r2 = rot90(&r1);
    let r3 = rot90(&r2);
    let f0 = flip1(board);
    let f1 = flip1(&r1);
    let f2 = flip1(&r2);
    let f3 = flip1(&r3);
    proof {
        reveal_with_fuel(turned_times, 4);
    }
    let r = vec![board.clone(), r1, r2, r3, f0, f1, f2, f3];
    assert(cells_of(&r@[0]) == b);
    r
}

} // verus!
