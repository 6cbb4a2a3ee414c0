use pentominoes_generator::symmetries::generate_symmetric_boards;

fn turn(b: &Vec<Vec<usize>>) -> Vec<Vec<usize>> {
    let n = b.len();
    (0..n).map(|i| (0..n).map(|j| b[n - 1 - j][i]).collect()).collect()
}

fn mirror(b: &Vec<Vec<usize>>) -> Vec<Vec<usize>> {
    b.iter().map(|r| r.iter().rev().cloned().collect()).collect()
}

fn l_board() -> Vec<Vec<usize>> {
    vec![
        vec![1, 2, 2, 2],
        vec![1, 2, 2, 2],
        vec![1, 1, 2, 2],
        vec![2, 2, 2, 2],
    ]
}

#[test]
fn eight_orientations_in_order() {
    let b = l_board();
    let all = generate_symmetric_boards(&b);
    assert_eq!(all.len(), 8);
    assert_eq!(all[0], b);
    assert_eq!(all[1], turn(&b));
    assert_eq!(all[2], turn(&turn(&b)));
    assert_eq!(all[3], turn(&turn(&turn(&b))));
    for k in 0..4 {
        assert_eq!(all[k + 4], mirror(&all[k]));
    }
    assert_eq!(
        all[1],
        vec![
            vec![2, 1, 1, 1],
            vec![2, 1, 2, 2],
            vec![2, 2, 2, 2],
            vec![2, 2, 2, 2],
        ]
    );
}

#[test]
fn asymmetric_shape_gives_distinct_orientations() {
    let all = generate_symmetric_boards(&l_board());
    let mut distinct = 0;
    for i in 0..8 {
        for j in (i + 1)..8 {
            if all[i] != all[j] {
                distinct += 1;
            }
        }
    }
    assert_eq!(distinct, 28);
}

#[test]
fn orientations_are_related_by_turns_and_mirrors() {
    let all = generate_symmetric_boards(&l_board());
    for x in &all {
        let mut reachable = Vec::new();
        let mut y = x.clone();
        for _ in 0..4 {
            reachable.push(y.clone());
            reachable.push(mirror(&y));
            y = turn(&y);
        }
        for z in &all {
            assert!(reachable.contains(z));
        }
    }
}

#[test]
fn symmetric_board_repeats_itself() {
    let b = vec![vec![1, 2], vec![2, 1]];
    let all = generate_symmetric_boards(&b);
    assert_eq!(all[0], all[2]);
    assert_eq!(all[1], all[4]);
}
