use rand::SeedableRng;
use sudoku_generator::{
    coord_to_index, generate_and_fill_board, generate_and_fill_board_with, generate_and_fill_boards,
    generate_and_fill_boards_with,
    index_to_coord, serializeBoard, BoardConfig, Coord, SudokuBoard, SudokuError,
};

fn seeded(seed: usize) -> rand::StdRng {
    rand::StdRng::from_seed(&[seed][..])
}

fn values(board: &SudokuBoard, side: usize) -> Vec<Vec<u64>> {
    (0..side)
        .map(|i| (0..side).map(|j| board.value_at(i, j).unwrap()).collect())
        .collect()
}

/// Full row, column and block distinctness, values in 1 ..= side.
fn is_valid_solution(board: &SudokuBoard, k: usize) -> bool {
    let side = k * k;
    let v = values(board, side);
    let mut ok = true;
    for a in 0..side * side {
        for b in 0..side * side {
            let (ai, aj, bi, bj) = (a / side, a % side, b / side, b % side);
            let related = ai == bi || aj == bj || (ai / k == bi / k && aj / k == bj / k);
            if a != b && related && v[ai][aj] == v[bi][bj] {
                ok = false;
            }
        }
        let x = v[a / side][a % side];
        if x < 1 || x > side as u64 {
            ok = false;
        }
    }
    ok
}

fn neighbor_indices(board: &SudokuBoard, cfg: &BoardConfig, index: usize) -> Vec<usize> {
    let mut r: Vec<usize> = board
        .neighbors(&index_to_coord(index, cfg))
        .iter()
        .map(|c| coord_to_index(c, cfg))
        .collect();
    r.sort();
    r
}

#[test]
fn single_cell_board() {
    for all in [true, false] {
        let cfg = BoardConfig::new(1, all).unwrap();
        assert_eq!((cfg.size_square, cfg.size_quad), (1, 1));
        let empty = SudokuBoard::new(cfg);
        assert!(empty.neighbors(&Coord { i: 0, j: 0 }).is_empty());
        let board = generate_and_fill_board_with(1, all, &mut seeded(1)).unwrap();
        assert_eq!(board.value_at(0, 0), Ok(1));
        assert_eq!(board.serialize(), "1|");
        assert_eq!(serializeBoard(&board), "1");
    }
}

#[test]
fn standard_board_is_valid_under_both_strategies() {
    for seed in 0..10 {
        for all in [true, false] {
            let board = generate_and_fill_board_with(3, all, &mut seeded(seed)).unwrap();
            assert!(is_valid_solution(&board, 3));
        }
    }
}

#[test]
fn same_seed_gives_same_board() {
    for all in [true, false] {
        let a = generate_and_fill_board_with(3, all, &mut seeded(7)).unwrap();
        let b = generate_and_fill_board_with(3, all, &mut seeded(7)).unwrap();
        assert_eq!(a.serialize(), b.serialize());
    }
}

#[test]
fn small_and_os_seeded_boards_are_valid() {
    let board = generate_and_fill_board_with(2, true, &mut seeded(3)).unwrap();
    assert!(is_valid_solution(&board, 2));
    let board = generate_and_fill_board(3, false).unwrap();
    assert!(is_valid_solution(&board, 3));
    let board = generate_and_fill_board(2, true).unwrap();
    assert!(is_valid_solution(&board, 2));
}

#[test]
fn candidate_order_is_shuffled() {
    // without a shuffle the first cell would always take the value 1
    let firsts: Vec<u64> = (0..20)
        .map(|seed| {
            generate_and_fill_board_with(3, false, &mut seeded(seed))
                .unwrap()
                .value_at(0, 0)
                .unwrap()
        })
        .collect();
    assert!(firsts.iter().any(|&v| v != 1));
}

#[test]
fn generate_many_returns_valid_boards() {
    let boards = generate_and_fill_boards(5, 3, true).unwrap();
    assert_eq!(boards.len(), 5);
    for b in &boards {
        assert!(is_valid_solution(b, 3));
    }
    let first = boards[0].serialize();
    assert!(boards.iter().any(|b| b.serialize() != first));
    assert_eq!(generate_and_fill_boards(0, 3, false).unwrap().len(), 0);
}

#[test]
fn zero_block_size_is_rejected() {
    assert_eq!(
        generate_and_fill_board_with(0, true, &mut seeded(1)).err(),
        Some(SudokuError::InvalidConfiguration)
    );
    assert_eq!(generate_and_fill_board(0, false).err(), Some(SudokuError::InvalidConfiguration));
    assert_eq!(
        generate_and_fill_boards(3, 0, true).err(),
        Some(SudokuError::InvalidConfiguration)
    );
}

#[test]
fn value_at_out_of_range() {
    let board = generate_and_fill_board_with(2, true, &mut seeded(5)).unwrap();
    assert_eq!(board.value_at(4, 0), Err(SudokuError::IndexOutOfRange));
    assert_eq!(board.value_at(0, 4), Err(SudokuError::IndexOutOfRange));
    assert!(board.value_at(3, 3).is_ok());
}

#[test]
fn exhaustive_neighbors_are_the_whole_row_column_and_block() {
    let cfg = BoardConfig::new(3, true).unwrap();
    let board = SudokuBoard::new(cfg);
    // cell (4, 4): row 36..45, column 4, 13, ..., block rows 3..6 cols 3..6
    let n = neighbor_indices(&board, &cfg, 40);
    assert_eq!(n.len(), 20);
    assert!(!n.contains(&40));
    for x in [36, 44, 4, 76, 30, 50] {
        assert!(n.contains(&x));
    }
    assert!(!n.contains(&0));
}

#[test]
fn exhaustive_neighbors_are_symmetric() {
    let cfg = BoardConfig::new(3, true).unwrap();
    let board = SudokuBoard::new(cfg);
    for a in 0..81 {
        for b in neighbor_indices(&board, &cfg, a) {
            assert!(neighbor_indices(&board, &cfg, b).contains(&a));
        }
    }
}

#[test]
fn fill_order_neighbors_precede_the_cell() {
    let cfg = BoardConfig::new(3, false).unwrap();
    let board = SudokuBoard::new(cfg);
    assert!(neighbor_indices(&board, &cfg, 0).is_empty());
    // cell (4, 4): column 4, 13, 22, 31; row 36..40; block rows above: 30, 32
    assert_eq!(neighbor_indices(&board, &cfg, 40), vec![4, 13, 22, 30, 31, 32, 36, 37, 38, 39]);
    for a in 0..81 {
        for b in neighbor_indices(&board, &cfg, a) {
            assert!(b < a);
        }
    }
}

#[test]
fn neighbor_values_skip_empty_cells() {
    let cfg = BoardConfig::new(2, true).unwrap();
    let mut board = SudokuBoard::new(cfg);
    assert!(board.neighbor_values(&Coord { i: 0, j: 0 }).is_empty());
    board.mark_cell(&Coord { i: 0, j: 3 }, 4);
    board.mark_cell_pos(5, 2);
    board.mark_cell(&Coord { i: 3, j: 3 }, 1);
    let vals = board.neighbor_values(&Coord { i: 0, j: 0 });
    assert_eq!(vals.len(), 2);
    assert!(vals.contains(&4) && vals.contains(&2));
}

#[test]
fn clear_then_refill_keeps_neighbors() {
    for all in [true, false] {
        let cfg = BoardConfig::new(3, all).unwrap();
        let mut board = SudokuBoard::new(cfg);
        let mut rng = seeded(11);
        board.fill(&mut rng).unwrap();
        let before: Vec<Vec<usize>> = (0..81).map(|a| neighbor_indices(&board, &cfg, a)).collect();
        board.clear();
        assert_eq!(serializeBoard(&board), vec!["0"; 81].join("|"));
        let after: Vec<Vec<usize>> = (0..81).map(|a| neighbor_indices(&board, &cfg, a)).collect();
        assert_eq!(before, after);
        board.fill(&mut rng).unwrap();
        assert!(is_valid_solution(&board, 3));
    }
}

#[test]
fn serialization_formats() {
    let cfg = BoardConfig::new(2, false).unwrap();
    let mut board = SudokuBoard::new(cfg);
    board.mark_cell_pos(0, 1234567);
    board.mark_cell_pos(1, 10);
    board.mark_cell_pos(15, 9);
    assert_eq!(board.serialize(), "1234567|10|0|0|0|0|0|0|0|0|0|0|0|0|0|9|");
    assert_eq!(serializeBoard(&board), "1234567|10|0|0|0|0|0|0|0|0|0|0|0|0|0|9");
    board.mark_cell_pos(2, u64::MAX);
    assert!(board.serialize().starts_with("1234567|10|18446744073709551615|0|"));
}

#[test]
fn serialization_lists_the_filled_values() {
    let board = generate_and_fill_board_with(2, true, &mut seeded(9)).unwrap();
    let text = board.serialize();
    let parts: Vec<&str> = text.split('|').collect();
    assert_eq!(parts.len(), 17);
    assert_eq!(parts[16], "");
    for i in 0..4 {
        for j in 0..4 {
            let v: u64 = parts[i * 4 + j].parse().unwrap();
            assert_eq!(Ok(v), board.value_at(i, j));
        }
    }
    assert_eq!(serializeBoard(&board), parts[..16].join("|"));
}

#[test]
fn generate_many_with_a_seeded_generator() {
    let boards = generate_and_fill_boards_with(5, 3, false, &mut seeded(21)).unwrap();
    assert_eq!(boards.len(), 5);
    for b in &boards {
        assert!(is_valid_solution(b, 3));
    }
    let again = generate_and_fill_boards_with(5, 3, false, &mut seeded(21)).unwrap();
    for t in 0..5 {
        assert_eq!(boards[t].serialize(), again[t].serialize());
    }
    assert_eq!(generate_and_fill_boards_with(0, 2, true, &mut seeded(1)).unwrap().len(), 0);
    assert_eq!(
        generate_and_fill_boards_with(2, 0, true, &mut seeded(1)).err(),
        Some(SudokuError::InvalidConfiguration)
    );
}

#[test]
fn generate_many_with_no_boards_needs_no_generator() {
    assert_eq!(generate_and_fill_boards(0, 3, true).unwrap().len(), 0);
    assert_eq!(generate_and_fill_boards(0, 0, true).err(), Some(SudokuError::InvalidConfiguration));
}
