use pentominoes_generator::growth::{gen_board, GrowthError, Mode};

const MODES: [Mode; 4] = [
    Mode::UniformExtendSource,
    Mode::UniformFreeTarget,
    Mode::BiasedToOrigin,
    Mode::BiasedFromOrigin,
];

fn assert_covered(board: &Vec<Vec<usize>>, size: usize, tiles: usize) {
    assert_eq!(board.len(), size);
    let mut seen = vec![false; tiles + 1];
    for row in board {
        assert_eq!(row.len(), size);
        for &cell in row {
            assert!(cell >= 1 && cell <= tiles, "cell {} out of 1..={}", cell, tiles);
            seen[cell] = true;
        }
    }
    for t in 1..=tiles {
        assert!(seen[t], "tile {} covers no cell", t);
    }
}

fn assert_connected(board: &Vec<Vec<usize>>, tiles: usize) {
    let n = board.len();
    for t in 1..=tiles {
        let cells: Vec<(usize, usize)> = (0..n)
            .flat_map(|h| (0..n).map(move |w| (h, w)))
            .filter(|&(h, w)| board[h][w] == t)
            .collect();
        let mut reached = vec![vec![false; n]; n];
        let mut stack = vec![cells[0]];
        reached[cells[0].0][cells[0].1] = true;
        let mut count = 0;
        while let Some((h, w)) = stack.pop() {
            count += 1;
            let mut next = Vec::new();
            if h > 0 {
                next.push((h - 1, w));
            }
            if w > 0 {
                next.push((h, w - 1));
            }
            if h + 1 < n {
                next.push((h + 1, w));
            }
            if w + 1 < n {
                next.push((h, w + 1));
            }
            for (p, q) in next {
                if board[p][q] == t && !reached[p][q] {
                    reached[p][q] = true;
                    stack.push((p, q));
                }
            }
        }
        assert_eq!(count, cells.len(), "tile {} is split", t);
    }
}

#[test]
fn every_strategy_covers_the_board() {
    for mode in MODES {
        for &(size, tiles) in &[(1, 1), (2, 2), (5, 3), (8, 12), (12, 40)] {
            for seed in 0..4u64 {
                let board = gen_board(mode, size, tiles, seed).unwrap();
                assert_covered(&board, size, tiles);
            }
        }
    }
}

#[test]
fn every_tile_is_one_region() {
    for mode in MODES {
        for &(size, tiles) in &[(3, 2), (6, 5), (10, 12), (16, 30)] {
            for seed in 0..4u64 {
                let board = gen_board(mode, size, tiles, seed).unwrap();
                assert_connected(&board, tiles);
            }
        }
    }
}

#[test]
fn single_tile_fills_the_board() {
    for mode in [Mode::UniformExtendSource, Mode::UniformFreeTarget] {
        let board = gen_board(mode, 4, 1, 9).unwrap();
        assert_eq!(board, vec![vec![1; 4]; 4]);
    }
}

#[test]
fn same_seed_gives_same_board() {
    for mode in MODES {
        for seed in [0u64, 1, 42, u64::MAX] {
            let first = gen_board(mode, 9, 7, seed).unwrap();
            let second = gen_board(mode, 9, 7, seed).unwrap();
            assert_eq!(first, second);
        }
    }
}

#[test]
fn too_many_tiles_are_refused() {
    for mode in MODES {
        assert_eq!(gen_board(mode, 3, 10, 1), Err(GrowthError::InvalidTileCount));
        assert_eq!(gen_board(mode, 1, 2, 1), Err(GrowthError::InvalidTileCount));
    }
}

#[test]
fn as_many_tiles_as_cells_gives_one_cell_each() {
    for mode in MODES {
        let board = gen_board(mode, 3, 9, 5).unwrap();
        let mut ids: Vec<usize> = board.iter().flatten().cloned().collect();
        ids.sort();
        assert_eq!(ids, (1..=9).collect::<Vec<usize>>());
    }
}

#[test]
fn empty_board_is_refused() {
    for mode in MODES {
        assert_eq!(gen_board(mode, 0, 0, 1), Err(GrowthError::InvalidSize));
        assert_eq!(gen_board(mode, 0, 1, 1), Err(GrowthError::InvalidSize));
    }
}

#[test]
fn zero_tiles_are_refused() {
    for mode in MODES {
        assert_eq!(gen_board(mode, 3, 0, 1), Err(GrowthError::InvalidTileCount));
    }
}

#[test]
fn biased_growth_needs_a_second_tile() {
    assert_eq!(gen_board(Mode::BiasedToOrigin, 3, 1, 1), Err(GrowthError::NoTileToGrow));
    assert_eq!(gen_board(Mode::BiasedFromOrigin, 2, 1, 1), Err(GrowthError::NoTileToGrow));
    assert_eq!(gen_board(Mode::BiasedToOrigin, 1, 1, 1), Ok(vec![vec![1]]));
}

#[test]
fn biased_growth_leaves_the_last_tile_alone() {
    for mode in [Mode::BiasedToOrigin, Mode::BiasedFromOrigin] {
        for seed in 0..6u64 {
            let board = gen_board(mode, 7, 4, seed).unwrap();
            let last = board.iter().flatten().filter(|&&c| c == 4).count();
            assert_eq!(last, 1);
        }
    }
}

#[test]
fn larger_boards_are_covered() {
    for mode in MODES {
        let board = gen_board(mode, 30, 120, 2024).unwrap();
        assert_covered(&board, 30, 120);
        assert_connected(&board, 120);
    }
}
