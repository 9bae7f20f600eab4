//! Board parameters and the row-major mapping between linear indices and
//! (row, column) positions.

use vstd::arithmetic::div_mod::{lemma_fundamental_div_mod, lemma_fundamental_div_mod_converse};
use vstd::prelude::*;

verus! {

/// What can go wrong when configuring, accessing or generating a board.
#[derive(Clone, Copy, Debug, PartialEq, Eq, Structural)]
pub enum SudokuError {
    /// The block size is zero, or the board it describes does not fit in memory indices.
    InvalidConfiguration,
    /// A cell was addressed outside the board.
    IndexOutOfRange,
    /// The search tried every candidate for the first cell without success.
    GenerationExhausted,
    /// No random generator could be seeded from the operating system.
    RandomSourceUnavailable,
}

/// A (row, column) position on the board.
#[derive(Clone, Copy, Debug, PartialEq, Eq, Hash, Structural)]
pub struct Coord {
    pub i: usize,
    pub j: usize,
}

/// How big the board is, and which neighbor relation its cells keep.
///
/// `size` is the block size k, `size_square` the side length k², and
/// `size_quad` the number of cells k⁴. With `all_neighbors` every cell keeps
/// its full row, column and block; otherwise only the related cells that
/// come before it in row-major order.
#[derive(Clone, Copy, Debug)]
pub struct BoardConfig {
    pub all_neighbors: bool,
    pub size: usize,
    pub size_square: usize,
    pub size_quad: usize,
}

/// k⁴, computed over the integers.
pub open spec fn fourth_power(k: int) -> int {
    k * k * (k * k)
}

impl BoardConfig {
    pub open spec fn wf(&self) -> bool {
        &&& self.size >= 1
        &&& self.size_square == self.size * self.size
        &&& self.size_quad == self.size_square * self.size_square
    }

    /// Side length of the board.
    pub open spec fn side(&self) -> int {
        self.size_square as int
    }

    /// Number of cells on the board.
    pub open spec fn cell_count(&self) -> int {
        self.size_quad as int
    }

    pub open spec fn in_grid(&self, c: Coord) -> bool {
        c.i < self.size_square && c.j < self.size_square
    }

    /// Row-major linear index of a position.
    pub open spec fn index_of(&self, c: Coord) -> int {
        c.i * self.side() + c.j
    }

    /// Position of a row-major linear index.
    pub open spec fn coord_of(&self, index: int) -> Coord {
        Coord { i: (index / self.side()) as usize, j: (index % self.side()) as usize }
    }

    /// Two positions constrain each other: same row, same column or same block.
    pub open spec fn peers(&self, a: Coord, b: Coord) -> bool {
        let k = self.size as int;
        a.i == b.i || a.j == b.j || (a.i as int / k == b.i as int / k && a.j as int / k == b.j as int / k)
    }

    /// Builds the configuration for blocks of `base_size` × `base_size` cells.
    pub fn new(base_size: usize, all_neighbors: bool) -> (r: Result<BoardConfig, SudokuError>)
        ensures
            r is Ok <==> base_size >= 1 && fourth_power(base_size as int) <= usize::MAX,
            r matches Ok(c) ==> c.wf() && c.size == base_size && c.all_neighbors == all_neighbors,
            r matches Err(e) ==> e == SudokuError::InvalidConfiguration,
    {
        if base_size == 0 {
            return Err(SudokuError::InvalidConfiguration);
        }
        let square = base_size.checked_mul(base_size);
        match square {
            None => {
                proof {
                    let k = base_size as int;
                    assert(k * k * (k * k) >= k * k) by (nonlinear_arith)
                        requires k >= 1;
                }
                Err(SudokuError::InvalidConfiguration)
            },
            Some(sq) => match sq.checked_mul(sq) {
                None => Err(SudokuError::InvalidConfiguration),
                Some(quad) => Ok(
                    BoardConfig {
                        all_neighbors: all_neighbors,
                        size: base_size,
                        size_square: sq,
                        size_quad: quad,
                    },
                ),
            },
        }
    }
}

/// The side length and the cell count of a well-formed configuration are
/// positive and fit each other.
pub proof fn lemma_sizes(cfg: BoardConfig)
    requires
        cfg.wf(),
    ensures
        1 <= cfg.size <= cfg.side() <= cfg.cell_count(),
{
    let k = cfg.size as int;
    assert(1 <= k <= k * k <= k * k * (k * k)) by (nonlinear_arith)
        requires k >= 1;
}

/// Every position of the grid has a linear index below the cell count.
pub proof fn lemma_index_in_range(cfg: BoardConfig, c: Coord)
    requires
        cfg.wf(),
        cfg.in_grid(c),
    ensures
        0 <= cfg.index_of(c) < cfg.cell_count(),
{
    let s = cfg.side();
    let (i, j) = (c.i as int, c.j as int);
    assert(0 <= i * s + j < s * s) by (nonlinear_arith)
        requires 0 <= i < s, 0 <= j < s;
}

/// Mapping an index of the board to its position and back gives the index
/// again, and the position lies on the grid.
pub proof fn lemma_index_coord_round_trip(cfg: BoardConfig, index: int)
    requires
        cfg.wf(),
        0 <= index < cfg.cell_count(),
    ensures
        cfg.in_grid(cfg.coord_of(index)),
        cfg.index_of(cfg.coord_of(index)) == index,
{
    let s = cfg.side();
    lemma_sizes(cfg);
    lemma_fundamental_div_mod(index, s);
    assert(index / s < s) by (nonlinear_arith)
        requires 0 <= index < s * s, index == s * (index / s) + index % s, 0 <= index % s < s;
    assert(index / s >= 0) by (nonlinear_arith)
        requires 0 <= index, index == s * (index / s) + index % s, 0 <= index % s < s, s > 0;
    let q = cfg.coord_of(index);
    assert(q.i as int == index / s && q.j as int == index % s);
    assert(cfg.index_of(q) == (index / s) * s + index % s);
    assert((index / s) * s == s * (index / s)) by (nonlinear_arith);
}

/// Mapping a position on the grid to its index and back gives the position
/// again.
pub proof fn lemma_coord_index_round_trip(cfg: BoardConfig, c: Coord)
    requires
        cfg.wf(),
        cfg.in_grid(c),
    ensures
        cfg.coord_of(cfg.index_of(c)) == c,
{
    lemma_sizes(cfg);
    lemma_fundamental_div_mod_converse(cfg.index_of(c), cfg.side(), c.i as int, c.j as int);
}

/// Row and column of the cell at linear index `index`.
pub fn index_to_coord(index: usize, board_config: &BoardConfig) -> (r: Coord)
    requires
        board_config.wf(),
    ensures
        r == board_config.coord_of(index as int),
{
    proof {
        lemma_sizes(*board_config);
    }
    Coord { i: index / board_config.size_square, j: index % board_config.size_square }
}

/// Row-major linear index of a position on the board.
pub fn coord_to_index(coord: &Coord, board_config: &BoardConfig) -> (r: usize)
    requires
        board_config.wf(),
        board_config.in_grid(*coord),
    ensures
        r == board_config.index_of(*coord),
        r < board_config.cell_count(),
{
    proof {
        lemma_index_in_range(*board_config, *coord);
    }
    coord.i * board_config.size_square + coord.j
}

} // verus!
