//! The neighbor graph: for each position, the positions whose values
//! constrain it.

use crate::config::{BoardConfig, Coord};
use vstd::arithmetic::div_mod::{lemma_fundamental_div_mod, lemma_fundamental_div_mod_converse};
use vstd::prelude::*;

verus! {

impl BoardConfig {
    /// `q` is kept as a neighbor of `p` under this configuration's strategy:
    /// every other related position, or only those filled before `p`.
    pub open spec fn is_neighbor(&self, p: Coord, q: Coord) -> bool {
        &&& self.in_grid(q)
        &&& q != p
        &&& self.peers(p, q)
        &&& (self.all_neighbors || self.index_of(q) < self.index_of(p))
    }
}

/// A position `a` lies in the k-wide band that starts at `p`'s floored
/// multiple of k exactly when `a` and `p` have the same quotient by k.
pub proof fn lemma_block_band(k: int, p: int, a: int)
    requires
        k >= 1,
        p >= 0,
        a >= 0,
    ensures
        ((p / k) * k <= a < (p / k) * k + k) <==> a / k == p / k,
{
    lemma_fundamental_div_mod(a, k);
    assert((a / k) * k == k * (a / k)) by (nonlinear_arith);
    if (p / k) * k <= a < (p / k) * k + k {
        lemma_fundamental_div_mod_converse(a, k, p / k, a - (p / k) * k);
    }
}

/// The block that holds a row (or column) below k·k ends within the grid.
pub proof fn lemma_block_fits(k: int, p: int)
    requires
        k >= 1,
        0 <= p < k * k,
    ensures
        0 <= (p / k) * k,
        (p / k) * k + k <= k * k,
{
    lemma_fundamental_div_mod(p, k);
    assert(0 <= p / k < k) by (nonlinear_arith)
        requires 0 <= p < k * k, p == k * (p / k) + p % k, 0 <= p % k < k, k >= 1;
    assert(0 <= (p / k) * k && (p / k) * k + k <= k * k) by (nonlinear_arith)
        requires 0 <= p / k < k, k >= 1;
}

/// On the grid, row-major index order is lexicographic (row, column) order.
pub proof fn lemma_index_order(cfg: BoardConfig, a: Coord, b: Coord)
    requires
        cfg.wf(),
        cfg.in_grid(a),
        cfg.in_grid(b),
    ensures
        cfg.index_of(a) < cfg.index_of(b) <==> (a.i < b.i || (a.i == b.i && a.j < b.j)),
{
    let s = cfg.side();
    let (ai, aj, bi, bj) = (a.i as int, a.j as int, b.i as int, b.j as int);
    assert(ai < bi ==> ai * s + aj < bi * s + bj) by (nonlinear_arith)
        requires 0 <= aj < s, 0 <= bj < s, 0 <= ai, 0 <= bi;
    assert(bi < ai ==> bi * s + bj < ai * s + aj) by (nonlinear_arith)
        requires 0 <= aj < s, 0 <= bj < s, 0 <= ai, 0 <= bi;
}

/// Appending an element that is not yet present keeps a sequence free of
/// duplicates and adds exactly that element.
pub(crate) proof fn lemma_push_fresh<T>(s: Seq<T>, x: T)
    requires
        s.no_duplicates(),
        !s.contains(x),
    ensures
        s.push(x).no_duplicates(),
        forall|q: T| #[trigger] s.push(x).contains(q) <==> (s.contains(q) || q == x),
{
    let t = s.push(x);
    assert(t[s.len() as int] == x);
    assert forall|q: T| t.contains(q) <==> (s.contains(q) || q == x) by {
        if s.contains(q) {
            let n = choose|n: int| 0 <= n < s.len() && s[n] == q;
            assert(t[n] == q);
        }
        if t.contains(q) && q != x {
            let n = choose|n: int| 0 <= n < t.len() && t[n] == q;
            assert(s[n] == q);
        }
    }
    assert forall|m: int, n: int| 0 <= m < t.len() && 0 <= n < t.len() && m != n implies t[m]
        != t[n] by {
        if m == s.len() {
            assert(s[n] == t[n]);
        } else if n == s.len() {
            assert(s[m] == t[m]);
        }
    }
}

/// A cell of the board: its value, 0 while empty, and the positions whose
/// values constrain it.
pub struct SudokuCell {
    pub value: u64,
    pub neighbors: Vec<Coord>,
}

impl SudokuCell {
    /// An empty cell at `position`, with the neighbors that the
    /// configuration's strategy keeps.
    pub fn new(position: Coord, board_config: &BoardConfig) -> (r: SudokuCell)
        requires
            board_config.wf(),
            board_config.in_grid(position),
        ensures
            r.value == 0,
            r.neighbors@.no_duplicates(),
            forall|q: Coord| r.neighbors@.contains(q) <==> board_config.is_neighbor(position, q),
    {
        let neighbors = if board_config.all_neighbors {
            SudokuCell::generate_all_neighbors(&position, board_config)
        } else {
            SudokuCell::generate_optimal_neighbors(&position, board_config)
        };
        SudokuCell { value: 0, neighbors: neighbors }
    }

    /// Every other position in the same row, column or block as `position`,
    /// each once.
    pub fn generate_all_neighbors(position: &Coord, board_config: &BoardConfig) -> (r: Vec<Coord>)
        requires
            board_config.wf(),
            board_config.in_grid(*position),
        ensures
            r@.no_duplicates(),
            forall|q: Coord|
                r@.contains(q) <==> board_config.in_grid(q) && q != *position && board_config.peers(
                *position,
                q,
            ),
    {
        let ghost cfg = *board_config;
        let s = board_config.size_square;
        let k = board_config.size;
        let pi = position.i;
        let pj = position.j;
        let mut neighbors: Vec<Coord> = Vec::new();

        // the row, but for the position itself
        let mut j: usize = 0;
        while j < s
            invariant
                j <= s,
                neighbors@.no_duplicates(),
                forall|q: Coord| neighbors@.contains(q) <==> (q.i == pi && q.j < j && q.j != pj),
            decreases s - j,
        {
            if j != pj {
                proof {
                    lemma_push_fresh(neighbors@, Coord { i: pi, j: j });
                }
                neighbors.push(Coord { i: pi, j: j });
            }
            j += 1;
        }

        // the column, but for the row already taken
        let mut i: usize = 0;
        while i < s
            invariant
                i <= s,
                s == cfg.side(),
                pi < s,
                neighbors@.no_duplicates(),
                forall|q: Coord|
                    neighbors@.contains(q) <==> ((q.i == pi && q.j < s && q.j != pj) || (q.j == pj && q.i < i
                        && q.i != pi)),
            decreases s - i,
        {
            if i != pi {
                proof {
                    lemma_push_fresh(neighbors@, Coord { i: i, j: pj });
                }
                neighbors.push(Coord { i: i, j: pj });
            }
            i += 1;
        }

        // the block, but for its cells on the row or column already taken
        proof {
            lemma_block_fits(k as int, pi as int);
            lemma_block_fits(k as int, pj as int);
        }
        let i_floor = (pi / k) * k;
        let j_floor = (pj / k) * k;
        let mut i: usize = i_floor;
        while i < i_floor + k
            invariant
                i_floor <= i <= i_floor + k,
                i_floor + k <= s,
                j_floor + k <= s,
                s == cfg.side(),
                pi < s,
                pj < s,
                neighbors@.no_duplicates(),
                forall|q: Coord|
                    neighbors@.contains(q) <==> ((q.i == pi && q.j < s && q.j != pj) || (q.j == pj && q.i < s
                        && q.i != pi) || (i_floor <= q.i < i && j_floor <= q.j < j_floor + k && q.i
                        != pi && q.j != pj)),
            decreases i_floor + k - i,
        {
            let mut j: usize = j_floor;
            while j < j_floor + k
                invariant
                    i_floor <= i < i_floor + k,
                    j_floor <= j <= j_floor + k,
                    i_floor + k <= s,
                    j_floor + k <= s,
                    neighbors@.no_duplicates(),
                    forall|q: Coord|
                        neighbors@.contains(q) <==> ((q.i == pi && q.j < s && q.j != pj) || (q.j == pj && q.i < s
                            && q.i != pi) || (i_floor <= q.i < i && j_floor <= q.j < j_floor + k
                            && q.i != pi && q.j != pj) || (q.i == i && j_floor <= q.j < j && q.i
                            != pi && q.j != pj)),
                decreases j_floor + k - j,
            {
                if i != pi && j != pj {
                    proof {
                        lemma_push_fresh(neighbors@, Coord { i: i, j: j });
                    }
                    neighbors.push(Coord { i: i, j: j });
                }
                j += 1;
            }
            i += 1;
        }
        proof {
            assert forall|q: Coord|
                #[trigger] neighbors@.contains(q) <==> board_config.in_grid(q) && q != *position
                    && board_config.peers(*position, q) by {
                lemma_block_band(k as int, pi as int, q.i as int);
                lemma_block_band(k as int, pj as int, q.j as int);
                assert(i_floor as int == (pi as int / k as int) * k as int);
                assert(j_floor as int == (pj as int / k as int) * k as int);
            }
        }
        neighbors
    }

    /// The positions in the same row, column or block as `position` that come
    /// before it in row-major order, each once.
    pub fn generate_optimal_neighbors(position: &Coord, board_config: &BoardConfig) -> (r: Vec<Coord>)
        requires
            board_config.wf(),
            board_config.in_grid(*position),
        ensures
            r@.no_duplicates(),
            forall|q: Coord|
                r@.contains(q) <==> board_config.in_grid(q) && board_config.peers(*position, q)
                    && board_config.index_of(q) < board_config.index_of(*position),
    {
        let s = board_config.size_square;
        let k = board_config.size;
        let pi = position.i;
        let pj = position.j;
        let mut neighbors: Vec<Coord> = Vec::new();

        // the column above
        let mut i: usize = 0;
        while i < pi
            invariant
                i <= pi,
                neighbors@.no_duplicates(),
                forall|q: Coord| neighbors@.contains(q) <==> (q.j == pj && q.i < i),
            decreases pi - i,
        {
            proof {
                lemma_push_fresh(neighbors@, Coord { i: i, j: pj });
            }
            neighbors.push(Coord { i: i, j: pj });
            i += 1;
        }

        // the row to the left
        let mut j: usize = 0;
        while j < pj
            invariant
                j <= pj,
                neighbors@.no_duplicates(),
                forall|q: Coord|
                    neighbors@.contains(q) <==> ((q.j == pj && q.i < pi) || (q.i == pi && q.j < j)),
            decreases pj - j,
        {
            proof {
                lemma_push_fresh(neighbors@, Coord { i: pi, j: j });
            }
            neighbors.push(Coord { i: pi, j: j });
            j += 1;
        }

        // the block rows above, but for the column already taken
        proof {
            lemma_block_fits(k as int, pi as int);
            lemma_block_fits(k as int, pj as int);
            lemma_block_band(k as int, pi as int, pi as int);
        }
        let i_floor = (pi / k) * k;
        let j_floor = (pj / k) * k;
        let mut i: usize = i_floor;
        while i < pi
            invariant
                i_floor <= i <= pi,
                j_floor + k <= s,
                neighbors@.no_duplicates(),
                forall|q: Coord|
                    neighbors@.contains(q) <==> ((q.j == pj && q.i < pi) || (q.i == pi && q.j < pj)
                        || (i_floor <= q.i < i && j_floor <= q.j < j_floor + k && q.j != pj)),
            decreases pi - i,
        {
            let mut j: usize = j_floor;
            while j < j_floor + k
                invariant
                    i_floor <= i < pi,
                    j_floor <= j <= j_floor + k,
                    j_floor + k <= s,
                    neighbors@.no_duplicates(),
                    forall|q: Coord|
                        neighbors@.contains(q) <==> ((q.j == pj && q.i < pi) || (q.i == pi && q.j
                            < pj) || (i_floor <= q.i < i && j_floor <= q.j < j_floor + k && q.j
                            != pj) || (q.i == i && j_floor <= q.j < j && q.j != pj)),
                decreases j_floor + k - j,
            {
                if j != pj {
                    proof {
                        lemma_push_fresh(neighbors@, Coord { i: i, j: j });
                    }
                    neighbors.push(Coord { i: i, j: j });
                }
                j += 1;
            }
            i += 1;
        }
        proof {
            assert forall|q: Coord|
                #[trigger] neighbors@.contains(q) <==> board_config.in_grid(q) && board_config.peers(
                    *position,
                    q,
                ) && board_config.index_of(q) < board_config.index_of(*position) by {
                lemma_block_band(k as int, pi as int, q.i as int);
                lemma_block_band(k as int, pj as int, q.j as int);
                assert(i_floor as int == (pi as int / k as int) * k as int);
                assert(j_floor as int == (pj as int / k as int) * k as int);
                if board_config.in_grid(q) {
                    lemma_index_order(*board_config, q, *position);
                }
            }
        }
        neighbors
    }
}

} // verus!
