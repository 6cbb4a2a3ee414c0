use vstd::prelude::*;

use crate::board::{cells_of, is_square, Board};
use crate::symmetries::{generate_symmetric_boards, orientation};

verus! {

/// The ten decimal digits, in order.
pub open spec fn digits() -> Seq<char> {
    seq!['0', '1', '2', '3', '4', '5', '6', '7', '8', '9']
}

/// The decimal notation of `n`, without leading zeros.
pub open spec fn decimal(n: nat) -> Seq<char>
    decreases n,
{
    if n < 10 {
        seq![digits()[n as int]]
    } else {
        decimal(n / 10).push(digits()[(n % 10) as int])
    }
}

/// The ids in `1..=upto` other than `tile`, ascending.
pub open spec fn other_ids(tile: nat, upto: nat) -> Seq<nat>
    decreases upto,
{
    if upto == 0 {
        seq![]
    } else if upto == tile {
        other_ids(tile, (upto - 1) as nat)
    } else {
        other_ids(tile, (upto - 1) as nat).push(upto)
    }
}

/// The numbers of `ids` in decimal, separated by single spaces.
pub open spec fn spaced(ids: Seq<nat>) -> Seq<char>
    decreases ids.len(),
{
    if ids.len() == 0 {
        seq![]
    } else if ids.len() == 1 {
        decimal(ids[0])
    } else {
        spaced(ids.drop_last()) + seq![' '] + decimal(ids.last())
    }
}

/// The character class that matches any id of `1..=tiles + 1` but `tile`.
pub open spec fn other_class(tile: nat, tiles: nat) -> Seq<char> {
    seq!['['] + spaced(other_ids(tile, tiles + 1)) + seq![']']
}

/// The maximal runs of `row`, each as (whether its cells hold `tile`, its length).
pub open spec fn runs(row: Seq<usize>, tile: usize) -> Seq<(bool, nat)>
    decreases row.len(),
{
    if row.len() == 0 {
        seq![]
    } else {
        let r = runs(row.drop_last(), tile);
        let k = row.last() == tile;
        if r.len() > 0 && r.last().0 == k {
            r.update(r.len() - 1, (k, r.last().1 + 1))
        } else {
            r.push((k, 1nat))
        }
    }
}

/// The runs of a row once a leading run of other cells is dropped on the first
/// row and a trailing run of other cells on the last row.
pub open spec fn trimmed(g: Seq<(bool, nat)>, first: bool, last: bool) -> Seq<(bool, nat)> {
    let a = if first && g.len() > 0 && !g[0].0 {
        g.subrange(1, g.len() as int)
    } else {
        g
    };
    if last && a.len() > 0 && !a.last().0 {
        a.drop_last()
    } else {
        a
    }
}

/// A run written as its symbol followed by its repetition count.
pub open spec fn run_text(g: (bool, nat), this: Seq<char>, other: Seq<char>) -> Seq<char> {
    (if g.0 {
        this
    } else {
        other
    }) + seq!['{'] + decimal(g.1) + seq!['}', ' ']
}

/// The runs of `gs` written one after the other.
pub open spec fn runs_text(gs: Seq<(bool, nat)>, this: Seq<char>, other: Seq<char>) -> Seq<char>
    decreases gs.len(),
{
    if gs.len() == 0 {
        seq![]
    } else {
        runs_text(gs.drop_last(), this, other) + run_text(gs.last(), this, other)
    }
}

/// The rows of `b` that hold `tile`, in order.
pub open spec fn rows_with(b: Seq<Seq<usize>>, tile: usize) -> Seq<Seq<usize>>
    decreases b.len(),
{
    if b.len() == 0 {
        seq![]
    } else if b.last().contains(tile) {
        rows_with(b.drop_last(), tile).push(b.last())
    } else {
        rows_with(b.drop_last(), tile)
    }
}

/// The text of the `i`-th of the rows that hold `tile`: its trimmed runs, and
/// one `other` marker after every row but the last.
pub open spec fn row_text(rows: Seq<Seq<usize>>, i: int, tile: usize, other: Seq<char>) -> Seq<char> {
    let last = i == rows.len() - 1;
    runs_text(trimmed(runs(rows[i], tile), i == 0, last), decimal(tile as nat), other) + if last {
        seq![]
    } else {
        other + seq![' ']
    }
}

/// The texts of the first `k` rows of `rows`.
pub open spec fn rows_text(rows: Seq<Seq<usize>>, k: nat, tile: usize, other: Seq<char>) -> Seq<char>
    decreases k,
{
    if k == 0 {
        seq![]
    } else {
        rows_text(rows, (k - 1) as nat, tile, other) + row_text(rows, k - 1, tile, other)
    }
}

/// The pattern of `tile` in one fixed orientation of the board `b`.
pub open spec fn orientation_pattern(b: Seq<Seq<usize>>, tile: usize, tiles: usize) -> Seq<char> {
    let other = other_class(tile as nat, tiles as nat);
    let rows = rows_with(b, tile);
    other + seq!['*', ' '] + rows_text(rows, rows.len(), tile, other) + other + seq!['*']
}

/// The texts of `ps` separated by `sep`.
pub open spec fn joined(ps: Seq<Seq<char>>, sep: Seq<char>) -> Seq<char>
    decreases ps.len(),
{
    if ps.len() == 0 {
        seq![]
    } else if ps.len() == 1 {
        ps[0]
    } else {
        joined(ps.drop_last(), sep) + sep + ps.last()
    }
}

/// The patterns of `tile` in the eight orientations of `b`.
pub open spec fn orientation_patterns(b: Seq<Seq<usize>>, tile: usize, tiles: usize) -> Seq<Seq<char>> {
    Seq::new(8, |k: int| orientation_pattern(orientation(b, k as nat), tile, tiles))
}

/// The pattern of `tile` that matches its footprint in any of the eight
/// orientations: `( (p0) | (p1) | ... | (p7) )`.
pub open spec fn tile_pattern(b: Seq<Seq<usize>>, tile: usize, tiles: usize) -> Seq<char> {
    seq!['(', ' ', '('] + joined(orientation_patterns(b, tile, tiles), seq![')', ' ', '|', ' ', '('])
        + seq![')', ' ', ')']
}

/// The pattern of a tile depends on the board and the ids alone: two
/// encodings of the same tile of the same board are the same text.
pub proof fn lemma_encoding_repeatable(
    b: Seq<Seq<usize>>,
    tile: usize,
    tiles: usize,
    first: Seq<char>,
    second: Seq<char>,
)
    requires
        first == tile_pattern(b, tile, tiles),
        second == tile_pattern(b, tile, tiles),
    ensures
        first == second,
{
}

/// Run lengths with their counts as mathematical integers.
pub open spec fn runs_of(v: Seq<(bool, usize)>) -> Seq<(bool, nat)> {
    Seq::new(v.len(), |i: int| (v[i].0, v[i].1 as nat))
}

/// Appends the decimal notation of `n`.
pub(crate) fn push_decimal(s: &mut String, n: u64)
    ensures
        final(s)@ == old(s)@ + decimal(n as nat),
    decreases n,
{
    if n >= 10 {
        push_decimal(s, n / 10);
    }
    let all = "0123456789";
    proof {
        reveal_strlit("0123456789");
    }
    let d = (n % 10) as usize;
    s.append(all.substring_ascii(d, d + 1));
    proof {
        assert(all@.subrange(d as int, d + 1) =~= seq![digits()[d as int]]);
        assert(s@ =~= old(s)@ + decimal(n as nat));
    }
}

/// The character class matching every id of `1..=tiles + 1` but `tile`.
fn other_marker(tile: usize, tiles: usize) -> (r: String)
    requires
        tiles < usize::MAX - 1,
    ensures
        r@ == other_class(tile as nat, tiles as nat),
{
    let mut r = String::from_str("[");
    proof {
        reveal_strlit("[");
    }
    let mut p: usize = 1;
    let mut any = false;
    while p <= tiles + 1
        invariant
            tiles < usize::MAX - 1,
            any == (other_ids(tile as nat, (p - 1) as nat).len() > 0),
            1 <= p <= tiles + 2,
            r@ == seq!['['] + spaced(other_ids(tile as nat, (p - 1) as nat)),
        decreases tiles + 2 - p,
    {
        let ghost before = other_ids(tile as nat, (p - 1) as nat);
        if p != tile {
            let ghost r0 = r@;
            if any {
                proof {
                    reveal_strlit(" ");
                }
                r.append(" ");
            }
            let ghost r1 = r@;
            push_decimal(&mut r, p as u64);
            assert(r@ == r1 + decimal(p as nat));
            assert(any ==> r1 =~= r0 + seq![' ']);
            assert(!any ==> r1 == r0);
            any = true;
            proof {
                let after = before.push(p as nat);
                assert(after.drop_last() =~= before);
                assert(other_ids(tile as nat, p as nat) == after);
                if before.len() == 0 {
                    assert(spaced(after) == decimal(after[0]));
                } else {
                    assert(spaced(after) == spaced(before) + seq![' '] + decimal(p as nat));
                }
                assert(r@ =~= seq!['['] + spaced(after));
            }
        }
        p = p + 1;
    }
    proof {
        reveal_strlit("]");
    }
    r.append("]");
    assert(r@ =~= other_class(tile as nat, tiles as nat));
    r
}

/// The maximal runs of `row`: for each, whether it holds `tile` and how long it is.
pub fn run_lengths(row: &Vec<usize>, tile: usize) -> (r: Vec<(bool, usize)>)
    ensures
        runs_of(r@) == runs(row@, tile),
{
    let mut r: Vec<(bool, usize)> = Vec::new();
    let mut k: usize = 0;
    while k < row.len()
        invariant
            k <= row.len(),
            runs_of(r@) == runs(row@.subrange(0, k as int), tile),
            forall|i: int| 0 <= i < r@.len() ==> #[trigger] r@[i].1 <= k,
        decreases row.len() - k,
    {
        let ghost prev = r@;
        let is_tile = row[k] == tile;
        let n = r.len();
        assert(row@.subrange(0, k + 1).drop_last() =~= row@.subrange(0, k as int));
        if n > 0 && r[n - 1].0 == is_tile {
            let c = r[n - 1].1;
            r.set(n - 1, (is_tile, c + 1));
        } else {
            r.push((is_tile, 1));
        }
        assert(runs_of(r@) =~= runs(row@.subrange(0, k + 1), tile));
        k = k + 1;
    }
    assert(row@.subrange(0, row.len() as int) =~= row@);
    r
}

/// Drops a leading run of other cells when `first`, then a trailing run of
/// other cells when `last`.
pub fn trim_runs(groups: Vec<(bool, usize)>, first: bool, last: bool) -> (r: Vec<(bool, usize)>)
    ensures
        runs_of(r@) == trimmed(runs_of(groups@), first, last),
{
    let mut g = groups;
    if first && g.len() > 0 && !g[0].0 {
        g.remove(0);
    }
    assert(runs_of(g@) =~= (if first && groups@.len() > 0 && !groups@[0].0 {
        runs_of(groups@).subrange(1, groups@.len() as int)
    } else {
        runs_of(groups@)
    }));
    let ghost mid = g@;
    if last && g.len() > 0 && !g[g.len() - 1].0 {
        g.pop();
    }
    assert(runs_of(g@) =~= (if last && mid.len() > 0 && !mid.last().0 {
        runs_of(mid).drop_last()
    } else {
        runs_of(mid)
    }));
    g
}

/// Whether `row` holds `tile`.
fn row_holds(row: &Vec<usize>, tile: usize) -> (r: bool)
    ensures
        r == row@.contains(tile),
{
    let mut k: usize = 0;
    while k < row.len()
        invariant
            k <= row.len(),
            forall|i: int| 0 <= i < k ==> row@[i] != tile,
        decreases row.len() - k,
    {
        if row[k] == tile {
            return true;
        }
        k = k + 1;
    }
    false
}

/// The rows of `b` picked out by `idx`, in the order of `idx`.
pub open spec fn rows_at(b: Seq<Seq<usize>>, idx: Seq<usize>) -> Seq<Seq<usize>> {
    Seq::new(idx.len(), |k: int| b[idx[k] as int])
}

/// The indices of the rows of the board that hold `tile`, in order.
fn rows_holding(board: &Board, tile: usize) -> (r: Vec<usize>)
    ensures
        rows_at(cells_of(board), r@) == rows_with(cells_of(board), tile),
        forall|k: int| 0 <= k < r@.len() ==> #[trigger] r@[k] < board@.len(),
{
    let ghost b = cells_of(board);
    let mut r: Vec<usize> = Vec::new();
    let mut k: usize = 0;
    while k < board.len()
        invariant
            b == cells_of(board),
            k <= board.len(),
            rows_at(b, r@) == rows_with(b.subrange(0, k as int), tile),
            forall|i: int| 0 <= i < r@.len() ==> #[trigger] r@[i] < k,
        decreases board.len() - k,
    {
        assert(b.subrange(0, k + 1).drop_last() =~= b.subrange(0, k as int));
        assert(b.subrange(0, k + 1).last() == b[k as int]);
        if row_holds(&board[k], tile) {
            r.push(k);
        }
        assert(rows_at(b, r@) =~= rows_with(b.subrange(0, k + 1), tile));
        k = k + 1;
    }
    assert(b.subrange(0, board.len() as int) =~= b);
    r
}

/// Appends one run: the tile's own number or the `other` class, then its
/// repetition count in braces.
fn push_run(result: &mut String, g: (bool, usize), tile: usize, other: &String)
    ensures
        final(result)@ == old(result)@ + run_text((g.0, g.1 as nat), decimal(tile as nat), other@),
{
    if g.0 {
        push_decimal(result, tile as u64);
    } else {
        result.append(other.as_str());
    }
    proof {
        reveal_strlit("{");
        reveal_strlit("} ");
    }
    result.append("{");
    push_decimal(result, g.1 as u64);
    result.append("} ");
    assert(result@ =~= old(result)@ + run_text((g.0, g.1 as nat), decimal(tile as nat), other@));
}

/// The pattern of `tile` in the orientation the board is given in: any number
/// of other cells, the runs of every row that holds the tile, any number of
/// other cells.
pub fn generate_single_transformation_expression(board: &Board, tile: usize, tiles: usize) -> (r: String)
    requires
        tiles < usize::MAX - 1,
    ensures
        r@ == orientation_pattern(cells_of(board), tile, tiles),
{
    let ghost b = cells_of(board);
    let other = other_marker(tile, tiles);
    let ghost o = other@;
    let ghost this = decimal(tile as nat);
    let mut result = other.clone();
    proof {
        reveal_strlit("* ");
    }
    result.append("* ");
    let ghost head = result@;
    let rows = rows_holding(board, tile);
    let ghost rs = rows_at(b, rows@);
    let m = rows.len();
    let mut i: usize = 0;
    while i < m
        invariant
            b == cells_of(board),
            o == other@,
            this == decimal(tile as nat),
            rs == rows_at(b, rows@),
            m == rows@.len(),
            forall|k: int| 0 <= k < rows@.len() ==> #[trigger] rows@[k] < board@.len(),
            i <= m,
            result@ == head + rows_text(rs, i as nat, tile, o),
        decreases m - i,
    {
        let is_last = i == m - 1;
        let row = &board[rows[i]];
        assert(row@ == rs[i as int]);
        let groups = trim_runs(run_lengths(row, tile), i == 0, is_last);
        let ghost gs = runs_of(groups@);
        let ghost base = result@;
        let mut j: usize = 0;
        while j < groups.len()
            invariant
                o == other@,
                this == decimal(tile as nat),
                gs == runs_of(groups@),
                j <= groups.len(),
                result@ == base + runs_text(gs.subrange(0, j as int), this, o),
            decreases groups.len() - j,
        {
            push_run(&mut result, groups[j], tile, &other);
            assert(gs.subrange(0, j + 1).drop_last() =~= gs.subrange(0, j as int));
            assert(result@ =~= base + runs_text(gs.subrange(0, j + 1), this, o));
            j = j + 1;
        }
        assert(gs.subrange(0, groups.len() as int) =~= gs);
        if !is_last {
            proof {
                reveal_strlit(" ");
            }
            result.append(other.as_str());
            result.append(" ");
        }
        assert(result@ =~= head + rows_text(rs, (i + 1) as nat, tile, o));
        i = i + 1;
    }
    proof {
        reveal_strlit("*");
    }
    result.append(other.as_str());
    result.append("*");
    assert(result@ =~= orientation_pattern(b, tile, tiles));
    result
}

/// The pattern of `tile` that matches its footprint in any of the eight
/// orientations of the board.
pub fn generate_expression(board: &Board, tile: usize, tiles: usize) -> (r: String)
    requires
        is_square(cells_of(board)),
        tiles < usize::MAX - 1,
    ensures
        r@ == tile_pattern(cells_of(board), tile, tiles),
{
    let ghost b = cells_of(board);
    let ghost ps = orientation_patterns(b, tile, tiles);
    let ghost sep = seq![')', ' ', '|', ' ', '('];
    let boards = generate_symmetric_boards(board);
    proof {
        reveal_strlit("( (");
    }
    let mut result = String::from_str("( (");
    let ghost head = result@;
    let mut k: usize = 0;
    while k < 8
        invariant
            b == cells_of(board),
            ps == orientation_patterns(b, tile, tiles),
            sep == seq![')', ' ', '|', ' ', '('],
            tiles < usize::MAX - 1,
            boards@.len() == 8,
            forall|i: int| 0 <= i < 8 ==> cells_of(&#[trigger] boards@[i]) == orientation(b, i as nat),
            k <= 8,
            result@ == head + joined(ps.subrange(0, k as int), sep),
        decreases 8 - k,
    {
        let ghost before = result@;
        if k > 0 {
            proof {
                reveal_strlit(") | (");
            }
            result.append(") | (");
        }
        let p = generate_single_transformation_expression(&boards[k], tile, tiles);
        result.append(p.as_str());
        proof {
            let next = ps.subrange(0, k + 1);
            assert(next.drop_last() =~= ps.subrange(0, k as int));
            assert(p@ == ps[k as int]);
            if k == 0 {
                assert(joined(next, sep) == ps[0]);
            } else {
                assert(joined(next, sep) == joined(ps.subrange(0, k as int), sep) + sep + ps[k as int]);
            }
            assert(result@ =~= head + joined(next, sep));
        }
        k = k + 1;
    }
    proof {
        reveal_strlit(") )");
        assert(ps.subrange(0, 8) =~= ps);
    }
    result.append(") )");
    assert(result@ =~= tile_pattern(b, tile, tiles));
    result
}

/// The pattern of every tile, in the order of the ids `1..=tiles`.
pub fn generate_tile_expressions(board: &Board, tiles: usize) -> (r: Vec<String>)
    requires
        is_square(cells_of(board)),
        tiles < usize::MAX - 1,
    ensures
        r@.len() == tiles,
        forall|i: int| 0 <= i < tiles ==> (#[trigger] r@[i])@ == tile_pattern(cells_of(board), (i + 1) as usize, tiles),
{
    let mut r: Vec<String> = Vec::new();
    let mut tile: usize = 1;
    while tile <= tiles
        invariant
            is_square(cells_of(board)),
            tiles < usize::MAX - 1,
            1 <= tile <= tiles + 1,
            r@.len() == tile - 1,
            forall|i: int| 0 <= i < tile - 1 ==> (#[trigger] r@[i])@ == tile_pattern(cells_of(board), (i + 1) as usize, tiles),
        decreases tiles + 1 - tile,
    {
        r.push(generate_expression(board, tile, tiles));
        tile = tile + 1;
    }
    r
}

} // verus!
