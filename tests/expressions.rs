use pentominoes_generator::tile_expressions::{
    generate_expression, generate_single_transformation_expression, generate_tile_expressions,
    run_lengths, trim_runs,
};

#[test]
fn top_row_tile_pattern() {
    let board = vec![vec![1, 1], vec![2, 2]];
    assert_eq!(
        generate_single_transformation_expression(&board, 1, 2),
        "[2 3]* 1{2} [2 3]*"
    );
    assert_eq!(
        generate_single_transformation_expression(&board, 2, 2),
        "[1 3]* 2{2} [1 3]*"
    );
}

#[test]
fn pattern_spanning_two_rows() {
    let board = vec![vec![1, 2], vec![1, 1]];
    assert_eq!(
        generate_single_transformation_expression(&board, 1, 2),
        "[2 3]* 1{1} [2 3]{1} [2 3] 1{2} [2 3]*"
    );
    assert_eq!(
        generate_single_transformation_expression(&board, 2, 2),
        "[1 3]* 2{1} [1 3]*"
    );
}

#[test]
fn interior_runs_of_other_cells_are_kept() {
    let board = vec![vec![2, 1, 2], vec![1, 2, 1], vec![2, 2, 2]];
    assert_eq!(
        generate_single_transformation_expression(&board, 1, 2),
        "[2 3]* 1{1} [2 3]{1} [2 3] 1{1} [2 3]{1} 1{1} [2 3]*"
    );
}

#[test]
fn ids_of_two_digits() {
    let mut board = vec![vec![1; 4]; 4];
    board[3][3] = 12;
    let text = generate_single_transformation_expression(&board, 12, 12);
    assert_eq!(text, "[1 2 3 4 5 6 7 8 9 10 11 13]* 12{1} [1 2 3 4 5 6 7 8 9 10 11 13]*");
}

#[test]
fn runs_and_trimming() {
    let row = vec![2, 2, 1, 1, 1, 3, 1, 2];
    let runs = run_lengths(&row, 1);
    assert_eq!(runs, vec![(false, 2), (true, 3), (false, 1), (true, 1), (false, 1)]);
    assert_eq!(run_lengths(&vec![], 1), vec![]);
    assert_eq!(
        trim_runs(runs.clone(), true, false),
        vec![(true, 3), (false, 1), (true, 1), (false, 1)]
    );
    assert_eq!(
        trim_runs(runs.clone(), false, true),
        vec![(false, 2), (true, 3), (false, 1), (true, 1)]
    );
    assert_eq!(trim_runs(runs.clone(), true, true), vec![(true, 3), (false, 1), (true, 1)]);
    assert_eq!(trim_runs(runs.clone(), false, false), runs);
    assert_eq!(trim_runs(vec![(true, 4)], true, true), vec![(true, 4)]);
}

#[test]
fn single_cell_board_pattern() {
    let board = vec![vec![1]];
    let one = "[2]* 1{1} [2]*";
    let expected = format!(
        "( ({}) | ({}) | ({}) | ({}) | ({}) | ({}) | ({}) | ({}) )",
        one, one, one, one, one, one, one, one
    );
    assert_eq!(generate_expression(&board, 1, 1), expected);
}

#[test]
fn pattern_lists_all_orientations_in_order() {
    let board = vec![vec![1, 2], vec![2, 2]];
    let id = "[2 3]* 1{1} [2 3]*";
    let expected = format!(
        "( ({}) | ({}) | ({}) | ({}) | ({}) | ({}) | ({}) | ({}) )",
        id, id, id, id, id, id, id, id
    );
    assert_eq!(generate_expression(&board, 1, 2), expected);
    let other = generate_expression(&board, 2, 2);
    assert!(other.starts_with("( ([1 3]* 2{1} [1 3] 2{2} [1 3]*) | ([1 3]* 2{1} [1 3]{1} [1 3] 2{2} [1 3]*)"));
}

#[test]
fn all_tiles_in_id_order() {
    let board = vec![vec![1, 1, 2], vec![3, 1, 2], vec![3, 3, 2]];
    let all = generate_tile_expressions(&board, 3);
    assert_eq!(all.len(), 3);
    for (i, text) in all.iter().enumerate() {
        assert_eq!(text, &generate_expression(&board, i + 1, 3));
    }
    assert!(all[0].starts_with("( ([2 3 4]* 1{2} [2 3 4]{1} [2 3 4] [2 3 4]{1} 1{1} [2 3 4]*)"));
    assert!(all[1].starts_with("( ([1 3 4]* 2{1} [1 3 4] [1 3 4]{2} 2{1} [1 3 4] [1 3 4]{2} 2{1} [1 3 4]*)"));
    assert!(all[2].starts_with("( ([1 2 4]* 3{1} [1 2 4]{2} [1 2 4] 3{2} [1 2 4]*)"));
}

#[test]
fn encoding_twice_gives_the_same_text() {
    let board = vec![vec![1, 2, 2], vec![1, 1, 2], vec![3, 3, 3]];
    for tile in 1..=3 {
        assert_eq!(generate_expression(&board, tile, 3), generate_expression(&board, tile, 3));
    }
}
