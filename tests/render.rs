use pentominoes_generator::render::{board_text, instance_text};
use pentominoes_generator::tile_expressions::generate_expression;

#[test]
fn small_boards_use_digits() {
    let board = vec![vec![1, 2], vec![3, 3]];
    assert_eq!(board_text(&board, 3, ""), "12\n33\n");
    assert_eq!(board_text(&board, 3, "%    "), "%    12\n%    33\n");
}

#[test]
fn mid_sized_boards_use_letters_above_nine() {
    let board = vec![vec![9, 10], vec![11, 35]];
    assert_eq!(board_text(&board, 40, ""), "9b\ncA\n");
    let last = vec![vec![59]];
    assert_eq!(board_text(&last, 59, ""), "Z\n");
}

#[test]
fn large_boards_pad_numbers() {
    let board = vec![vec![7, 42], vec![60, 99]];
    assert_eq!(board_text(&board, 99, ""), "0742\n6099\n");
    let huge = vec![vec![5, 77], vec![123, 1000]];
    assert_eq!(board_text(&huge, 1000, "> "), "> 005077\n> 1231000\n");
}

#[test]
fn instance_file_text() {
    let board = vec![vec![1, 1], vec![2, 2]];
    let text = instance_text(&board, 2, 2, Some(7));
    let expected = format!(
        "% Instance for pentominoes model generated using https://github.com/zayenz/minizinc-pentominoes-generator\n\
         % Instance generated for board size 2 with 2 tiles using 7 as seed\n\
         % Generated board\n\
         %    11\n\
         %    22\n\
         \n\
         size = 2;\n\
         tiles = 2;\n\
         expressions = [\n    \"{}\",\n    \"{}\",\n];\n",
        generate_expression(&board, 1, 2),
        generate_expression(&board, 2, 2)
    );
    assert_eq!(text, expected);
}

#[test]
fn instance_without_seed_names_entropy() {
    let board = vec![vec![1]];
    let text = instance_text(&board, 1, 1, None);
    assert!(text.contains("% Instance generated for board size 1 with 1 tiles using system entropy\n"));
    assert!(text.ends_with("expressions = [\n    \"( ([2]* 1{1} [2]*) | ([2]* 1{1} [2]*) | ([2]* 1{1} [2]*) | ([2]* 1{1} [2]*) | ([2]* 1{1} [2]*) | ([2]* 1{1} [2]*) | ([2]* 1{1} [2]*) | ([2]* 1{1} [2]*) )\",\n];\n"));
}
