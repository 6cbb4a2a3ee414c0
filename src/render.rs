use vstd::prelude::*;

use crate::board::{cells_of, is_square, Board};
use crate::tile_expressions::{decimal, generate_tile_expressions, push_decimal, tile_pattern};

verus! {

/// The letters that stand for tile ids above 9 on mid-sized boards.
pub open spec fn letters() -> Seq<char> {
    "abcdefghijklmnopqrstuvwxyzABCDEFGIJKLMNOPQRSTUVWXYZ"@
}

/// How one cell is written when the board holds `tiles` tiles: plain numbers
/// up to 9 tiles; then numbers up to 9 and letters above; then numbers padded
/// with zeros to two digits up to 99 tiles, and to three digits beyond.
pub open spec fn cell_text(cell: nat, tiles: nat) -> Seq<char> {
    if tiles <= 9 {
        decimal(cell)
    } else if tiles < 9 + letters().len() {
        if cell <= 9 {
            decimal(cell)
        } else {
            seq![letters()[cell - 9]]
        }
    } else if tiles <= 99 {
        if cell < 10 {
            seq!['0'] + decimal(cell)
        } else {
            decimal(cell)
        }
    } else if cell < 10 {
        seq!['0', '0'] + decimal(cell)
    } else if cell < 100 {
        seq!['0'] + decimal(cell)
    } else {
        decimal(cell)
    }
}

/// The cells of a row written one after the other.
pub open spec fn cells_text(row: Seq<usize>, tiles: nat) -> Seq<char>
    decreases row.len(),
{
    if row.len() == 0 {
        seq![]
    } else {
        cells_text(row.drop_last(), tiles) + cell_text(row.last() as nat, tiles)
    }
}

/// The board written row by row, each row after `prefix` and ended by a newline.
pub open spec fn rows_text(b: Seq<Seq<usize>>, tiles: nat, prefix: Seq<char>) -> Seq<char>
    decreases b.len(),
{
    if b.len() == 0 {
        seq![]
    } else {
        rows_text(b.drop_last(), tiles, prefix) + prefix + cells_text(b.last(), tiles) + "\n"@
    }
}

/// Every cell of `b` holds at most `tiles`.
pub open spec fn ids_within(b: Seq<Seq<usize>>, tiles: nat) -> bool {
    forall|h: int, w: int| 0 <= h < b.len() && 0 <= w < b[h].len() ==> #[trigger] b[h][w] <= tiles
}

/// Appends how one cell is written.
fn push_cell(s: &mut String, cell: usize, tiles: usize)
    requires
        cell <= tiles,
    ensures
        final(s)@ == old(s)@ + cell_text(cell as nat, tiles as nat),
{
    let letters = "abcdefghijklmnopqrstuvwxyzABCDEFGIJKLMNOPQRSTUVWXYZ";
    proof {
        reveal_strlit("abcdefghijklmnopqrstuvwxyzABCDEFGIJKLMNOPQRSTUVWXYZ");
        reveal_strlit("0");
        reveal_strlit("00");
    }
    let count: usize = 51;
    if tiles <= 9 {
        push_decimal(s, cell as u64);
    } else if tiles < 9 + count {
        if cell <= 9 {
            push_decimal(s, cell as u64);
        } else {
            s.append(letters.substring_ascii(cell - 9, cell - 8));
            assert(letters@.subrange(cell - 9, cell - 8) =~= seq![letters@[cell - 9]]);
        }
    } else if tiles <= 99 {
        if cell < 10 {
            s.append("0");
        }
        push_decimal(s, cell as u64);
    } else {
        if cell < 10 {
            s.append("00");
        } else if cell < 100 {
            s.append("0");
        }
        push_decimal(s, cell as u64);
    }
    assert(s@ =~= old(s)@ + cell_text(cell as nat, tiles as nat));
}

/// The board written row by row: each row after `row_prefix`, its cells as
/// `cell_text` writes them, and a newline.
pub fn board_text(board: &Board, tiles: usize, row_prefix: &str) -> (r: String)
    requires
        ids_within(cells_of(board), tiles as nat),
    ensures
        r@ == rows_text(cells_of(board), tiles as nat, row_prefix@),
{
    let ghost b = cells_of(board);
    let mut r = String::new();
    let mut h: usize = 0;
    while h < board.len()
        invariant
            b == cells_of(board),
            ids_within(b, tiles as nat),
            h <= board@.len(),
            r@ == rows_text(b.subrange(0, h as int), tiles as nat, row_prefix@),
        decreases board@.len() - h,
    {
        let row = &board[h];
        assert(row@ == b[h as int]);
        let ghost base = r@ + row_prefix@;
        r.append(row_prefix);
        let mut w: usize = 0;
        while w < row.len()
            invariant
                b == cells_of(board),
                ids_within(b, tiles as nat),
                h < board@.len(),
                row@ == b[h as int],
                w <= row@.len(),
                r@ == base + cells_text(row@.subrange(0, w as int), tiles as nat),
            decreases row@.len() - w,
        {
            push_cell(&mut r, row[w], tiles);
            assert(row@.subrange(0, w + 1).drop_last() =~= row@.subrange(0, w as int));
            assert(r@ =~= base + cells_text(row@.subrange(0, w + 1), tiles as nat));
            w = w + 1;
        }
        r.append("\n");
        proof {
            assert(row@.subrange(0, row@.len() as int) =~= row@);
            assert(b.subrange(0, h + 1).drop_last() =~= b.subrange(0, h as int));
            assert(r@ =~= rows_text(b.subrange(0, h + 1), tiles as nat, row_prefix@));
        }
        h = h + 1;
    }
    assert(b.subrange(0, board@.len() as int) =~= b);
    r
}

/// Each pattern on a line of its own, quoted, indented and followed by a comma.
pub open spec fn expression_lines(ps: Seq<Seq<char>>) -> Seq<char>
    decreases ps.len(),
{
    if ps.len() == 0 {
        seq![]
    } else {
        expression_lines(ps.drop_last()) + "    \""@ + ps.last() + "\",\n"@
    }
}

/// Where the randomness came from, as the instance header tells it.
pub open spec fn seed_words(seed: Option<u64>) -> Seq<char> {
    match seed {
        Some(s) => decimal(s as nat) + " as seed"@,
        None => "system entropy"@,
    }
}

/// The instance file for a board: a commented header and the board, then the
/// board size, the number of tiles, and the pattern of every tile in id order.
pub open spec fn instance(b: Seq<Seq<usize>>, tiles: usize, size: usize, seed: Option<u64>) -> Seq<char> {
    "% Instance for pentominoes model generated using https://github.com/zayenz/minizinc-pentominoes-generator\n"@
        + "% Instance generated for board size "@ + decimal(size as nat) + " with "@ + decimal(tiles as nat)
        + " tiles using "@ + seed_words(seed) + "\n"@ + "% Generated board\n"@ + rows_text(b, tiles as nat, "%    "@)
        + "\n"@ + "size = "@ + decimal(size as nat) + ";\n"@ + "tiles = "@ + decimal(tiles as nat) + ";\n"@
        + "expressions = [\n"@ + expression_lines(Seq::new(tiles as nat, |i: int| tile_pattern(b, (i + 1) as usize, tiles)))
        + "];\n"@
}

/// The text of the instance file for `board`, whose tiles' patterns it computes.
pub fn instance_text(board: &Board, tiles: usize, size: usize, seed: Option<u64>) -> (r: String)
    requires
        is_square(cells_of(board)),
        ids_within(cells_of(board), tiles as nat),
        tiles < usize::MAX - 1,
    ensures
        r@ == instance(cells_of(board), tiles, size, seed),
{
    let ghost b = cells_of(board);
    let ghost ps = Seq::new(tiles as nat, |i: int| tile_pattern(b, (i + 1) as usize, tiles));
    let expressions = generate_tile_expressions(board, tiles);
    let mut r = String::new();
    r.append("% Instance for pentominoes model generated using https://github.com/zayenz/minizinc-pentominoes-generator\n");
    r.append("% Instance generated for board size ");
    push_decimal(&mut r, size as u64);
    r.append(" with ");
    push_decimal(&mut r, tiles as u64);
    r.append(" tiles using ");
    match seed {
        Some(s) => {
            push_decimal(&mut r, s);
            r.append(" as seed");
        },
        None => {
            r.append("system entropy");
        },
    }
    r.append("\n");
    r.append("% Generated board\n");
    let board_lines = board_text(board, tiles, "%    ");
    r.append(board_lines.as_str());
    r.append("\n");
    r.append("size = ");
    push_decimal(&mut r, size as u64);
    r.append(";\n");
    r.append("tiles = ");
    push_decimal(&mut r, tiles as u64);
    r.append(";\n");
    r.append("expressions = [\n");
    let ghost head = r@;
    let mut i: usize = 0;
    while i < expressions.len()
        invariant
            expressions@.len() == tiles,
            forall|k: int| 0 <= k < tiles ==> (#[trigger] expressions@[k])@ == ps[k],
            ps.len() == tiles,
            i <= tiles,
            r@ == head + expression_lines(ps.subrange(0, i as int)),
        decreases tiles - i,
    {
        r.append("    \"");
        r.append(expressions[i].as_str());
        r.append("\",\n");
        proof {
            assert(ps.subrange(0, i + 1).drop_last() =~= ps.subrange(0, i as int));
            assert(r@ =~= head + expression_lines(ps.subrange(0, i + 1)));
        }
        i = i + 1;
    }
    r.append("];\n");
    assert(ps.subrange(0, tiles as int) =~= ps);
    assert(r@ =~= instance(b, tiles, size, seed));
    r
}

} // verus!
