use vstd::prelude::*;

verus! {

/// A square board of tile ids, stored row by row; 0 marks an empty cell.
pub type Board = Vec<Vec<usize>>;

/// Every row of `b` is as long as `b` has rows.
pub open spec fn is_square(b: Seq<Seq<usize>>) -> bool {
    forall|i: int| 0 <= i < b.len() ==> #[trigger] b[i].len() == b.len()
}

/// The mathematical value of a board: its rows as sequences.
pub open spec fn cells_of(b: &Board) -> Seq<Seq<usize>> {
    b@.map_values(|row: Vec<usize>| row@)
}

} // verus!
