use sudoku_generator::{coord_to_index, index_to_coord, BoardConfig, Coord, SudokuError};

fn config(base_size: usize, all_neighbors: bool) -> BoardConfig {
    BoardConfig::new(base_size, all_neighbors).unwrap()
}

#[test]
fn lib_test_index_to_coord() {
    assert!(index_to_coord(0, &config(3, false)) == Coord { i: 0, j: 0 });
    assert!(index_to_coord(80, &config(3, false)) == Coord { i: 8, j: 8 });
}

#[test]
fn lib_test_coord_to_index() {
    assert!(coord_to_index(&Coord { i: 0, j: 0 }, &config(3, false)) == 0);
    assert!(coord_to_index(&Coord { i: 8, j: 8 }, &config(3, false)) == 80);
}

#[test]
fn main_test_index_to_coord() {
    assert!(index_to_coord(0, &config(3, false)) == Coord { i: 0, j: 0 });
    assert!(index_to_coord(80, &config(3, false)) == Coord { i: 8, j: 8 });
}

#[test]
fn main_test_coord_to_index() {
    assert!(coord_to_index(&Coord { i: 0, j: 0 }, &config(3, false)) == 0);
    assert!(coord_to_index(&Coord { i: 8, j: 8 }, &config(3, false)) == 80);
}

#[test]
fn sudoku_generator_test_index_to_coord() {
    assert!(index_to_coord(0, &config(3, false)) == Coord { i: 0, j: 0 });
    assert!(index_to_coord(80, &config(3, false)) == Coord { i: 8, j: 8 });
}

#[test]
fn sudoku_generator_test_coord_to_index() {
    assert!(coord_to_index(&Coord { i: 0, j: 0 }, &config(3, false)) == 0);
    assert!(coord_to_index(&Coord { i: 8, j: 8 }, &config(3, false)) == 80);
}

#[test]
fn index_and_coord_round_trip_on_every_cell() {
    for k in 1..5usize {
        let cfg = config(k, true);
        for index in 0..cfg.size_quad {
            let c = index_to_coord(index, &cfg);
            assert!(c.i < cfg.size_square && c.j < cfg.size_square);
            assert_eq!(coord_to_index(&c, &cfg), index);
        }
        for i in 0..cfg.size_square {
            for j in 0..cfg.size_square {
                let c = Coord { i, j };
                assert_eq!(index_to_coord(coord_to_index(&c, &cfg), &cfg), c);
            }
        }
    }
}

#[test]
fn index_to_coord_is_row_major() {
    let cfg = config(3, true);
    assert_eq!(index_to_coord(10, &cfg), Coord { i: 1, j: 1 });
    assert_eq!(index_to_coord(17, &cfg), Coord { i: 1, j: 8 });
    assert_eq!(coord_to_index(&Coord { i: 4, j: 2 }, &cfg), 38);
}

#[test]
fn config_sizes() {
    let cfg = config(3, false);
    assert_eq!(cfg.size, 3);
    assert_eq!(cfg.size_square, 9);
    assert_eq!(cfg.size_quad, 81);
    assert!(!cfg.all_neighbors);
    let one = config(1, true);
    assert_eq!((one.size_square, one.size_quad), (1, 1));
}

#[test]
fn config_rejects_zero_and_oversized_blocks() {
    assert_eq!(BoardConfig::new(0, true).unwrap_err(), SudokuError::InvalidConfiguration);
    assert_eq!(BoardConfig::new(0, false).unwrap_err(), SudokuError::InvalidConfiguration);
    assert_eq!(
        BoardConfig::new(usize::MAX, false).unwrap_err(),
        SudokuError::InvalidConfiguration
    );
    assert_eq!(BoardConfig::new(1 << 16, false).unwrap_err(), SudokuError::InvalidConfiguration);
}
