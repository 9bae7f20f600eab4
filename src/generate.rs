//! Generating filled boards from a block size and a neighbor strategy.

use crate::board::SudokuBoard;
use crate::config::{
    fourth_power, lemma_coord_index_round_trip, lemma_index_in_range, BoardConfig, Coord, SudokuError,
};
use crate::random::os_seeded_rng;
use vstd::prelude::*;

verus! {

/// `b` is a filled, valid board of blocks of `board_size` cells, built with
/// the given neighbor strategy.
pub open spec fn is_generated(b: SudokuBoard, board_size: usize, all_neighbors: bool) -> bool {
    &&& b.wf()
    &&& b.config().size == board_size
    &&& b.config().all_neighbors == all_neighbors
    &&& b.config().is_complete(b@)
    &&& b.config().is_consistent(b@)
}

/// The block size describes no board this machine can index.
pub open spec fn invalid_size(board_size: usize) -> bool {
    board_size == 0 || fourth_power(board_size as int) > usize::MAX
}

/// Builds a board and fills it, drawing the candidate orders from `rng`.
pub fn generate_and_fill_board_with(
    board_size: usize,
    all_neighbors: bool,
    rng: &mut rand::StdRng,
) -> (r: Result<SudokuBoard, SudokuError>)
    ensures
        invalid_size(board_size) <==> r == Err::<SudokuBoard, SudokuError>(
            SudokuError::InvalidConfiguration,
        ),
        r is Ok <==> !invalid_size(board_size),
        r matches Ok(b) ==> is_generated(b, board_size, all_neighbors),
{
    let board_config = match BoardConfig::new(board_size, all_neighbors) {
        Ok(c) => c,
        Err(e) => {
            return Err(e);
        },
    };
    let mut board = SudokuBoard::new(board_config);
    assert(board_config.later_ignored(board@, 0));
    match board.fill(rng) {
        Ok(()) => Ok(board),
        Err(e) => Err(e),
    }
}

/// Builds a board and fills it with a generator seeded by the operating
/// system.
pub fn generate_and_fill_board(board_size: usize, all_neighbors: bool) -> (r: Result<
    SudokuBoard,
    SudokuError,
>)
    ensures
        invalid_size(board_size) <==> r == Err::<SudokuBoard, SudokuError>(
            SudokuError::InvalidConfiguration,
        ),
        r matches Ok(b) ==> is_generated(b, board_size, all_neighbors),
        r matches Err(e) ==> e == SudokuError::InvalidConfiguration || e
            == SudokuError::RandomSourceUnavailable,
{
    if let Err(e) = BoardConfig::new(board_size, all_neighbors) {
        return Err(e);
    }
    match os_seeded_rng() {
        Some(mut rng) => generate_and_fill_board_with(board_size, all_neighbors, &mut rng),
        None => Err(SudokuError::RandomSourceUnavailable),
    }
}

/// Generates `board_count` boards, one after the other, drawing the
/// candidate orders from `rng`.
pub fn generate_and_fill_boards_with(
    board_count: usize,
    board_size: usize,
    all_neighbors: bool,
    rng: &mut rand::StdRng,
) -> (r: Result<Vec<SudokuBoard>, SudokuError>)
    ensures
        r is Ok <==> !invalid_size(board_size),
        invalid_size(board_size) <==> r == Err::<Vec<SudokuBoard>, SudokuError>(
            SudokuError::InvalidConfiguration,
        ),
        r matches Ok(v) ==> v.len() == board_count && forall|t: int|
            0 <= t < v.len() ==> is_generated(#[trigger] v@[t], board_size, all_neighbors),
{
    if let Err(e) = BoardConfig::new(board_size, all_neighbors) {
        return Err(e);
    }
    let mut boards: Vec<SudokuBoard> = Vec::new();
    let mut n: usize = 0;
    while n < board_count
        invariant
            !invalid_size(board_size),
            n <= board_count,
            boards.len() == n,
            forall|t: int|
                0 <= t < boards.len() ==> is_generated(#[trigger] boards@[t], board_size, all_neighbors),
        decreases board_count - n,
    {
        match generate_and_fill_board_with(board_size, all_neighbors, rng) {
            Ok(board) => boards.push(board),
            Err(e) => {
                return Err(e);
            },
        }
        n += 1;
    }
    Ok(boards)
}

/// Generates `board_count` boards, one after the other, from one generator
/// seeded by the operating system. No generator is seeded when no board is
/// asked for.
pub fn generate_and_fill_boards(board_count: usize, board_size: usize, all_neighbors: bool) -> (r:
    Result<Vec<SudokuBoard>, SudokuError>)
    ensures
        invalid_size(board_size) <==> r == Err::<Vec<SudokuBoard>, SudokuError>(
            SudokuError::InvalidConfiguration,
        ),
        r matches Ok(v) ==> v.len() == board_count && forall|t: int|
            0 <= t < v.len() ==> is_generated(#[trigger] v@[t], board_size, all_neighbors),
        r matches Err(e) ==> e == SudokuError::InvalidConfiguration || e
            == SudokuError::RandomSourceUnavailable,
        board_count == 0 && !invalid_size(board_size) ==> (r matches Ok(v) && v.len() == 0),
{
    if let Err(e) = BoardConfig::new(board_size, all_neighbors) {
        return Err(e);
    }
    if board_count == 0 {
        return Ok(Vec::new());
    }
    match os_seeded_rng() {
        Some(mut rng) => generate_and_fill_boards_with(board_count, board_size, all_neighbors, &mut rng),
        None => Err(SudokuError::RandomSourceUnavailable),
    }
}

/// Every generated board is filled with values in 1 ..= k², and no two
/// distinct positions of the same row, column or block hold the same value,
/// whichever neighbor strategy built it.
pub proof fn lemma_generated_board_valid(b: SudokuBoard, board_size: usize, all_neighbors: bool)
    requires
        is_generated(b, board_size, all_neighbors),
    ensures
        b@.len() == fourth_power(board_size as int),
        forall|a: int| 0 <= a < b@.len() ==> 1 <= #[trigger] b@[a] <= board_size * board_size,
        forall|p: Coord, q: Coord|
            b.config().in_grid(p) && b.config().in_grid(q) && p != q && b.config().peers(p, q)
                ==> #[trigger] b@[b.config().index_of(p)] != #[trigger] b@[b.config().index_of(q)],
{
    let cfg = b.config();
    b.lemma_wf_views();
    assert forall|p: Coord, q: Coord|
        cfg.in_grid(p) && cfg.in_grid(q) && p != q && cfg.peers(p, q) implies #[trigger] b@[cfg.index_of(
            p,
        )] != #[trigger] b@[cfg.index_of(q)] by {
        lemma_index_in_range(cfg, p);
        lemma_index_in_range(cfg, q);
        lemma_coord_index_round_trip(cfg, p);
        lemma_coord_index_round_trip(cfg, q);
        let (x, y) = (cfg.index_of(p), cfg.index_of(q));
        assert(cfg.peers(cfg.coord_of(x), cfg.coord_of(y)));
        assert(b@[x] != 0);
    }
}

} // verus!
