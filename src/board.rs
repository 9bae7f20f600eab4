//! The board: cell values, the precomputed neighbor graph, and the
//! randomized backtracking fill.

use crate::config::{
    lemma_coord_index_round_trip, lemma_index_coord_round_trip, lemma_index_in_range, lemma_sizes,
};
use crate::config::{coord_to_index, index_to_coord, BoardConfig, Coord, SudokuError};
use crate::neighbors::{lemma_push_fresh, SudokuCell};
use crate::random::shuffle_values;
use crate::solution::lemma_solution_exists;
use std::collections::HashSet;
use vstd::prelude::*;

verus! {

broadcast use vstd::std_specs::hash::group_hash_axioms;

impl BoardConfig {
    /// Every one of the first `n` cells holds a legal value, and no two
    /// related cells among them hold the same one.
    pub open spec fn is_filled_prefix(&self, vals: Seq<u64>, n: int) -> bool {
        &&& forall|a: int| 0 <= a < n ==> 1 <= #[trigger] vals[a] <= self.side()
        &&& forall|a: int, b: int|
            0 <= a < n && 0 <= b < n && a != b && self.peers(self.coord_of(a), self.coord_of(b))
                ==> #[trigger] vals[a] != #[trigger] vals[b]
    }

    /// Every cell holds a value in 1 ..= side length.
    pub open spec fn is_complete(&self, vals: Seq<u64>) -> bool {
        &&& vals.len() == self.cell_count()
        &&& forall|a: int| 0 <= a < vals.len() ==> 1 <= #[trigger] vals[a] <= self.side()
    }

    /// `w` is a complete, consistent board that agrees with `vals` on the
    /// first `n` cells.
    pub open spec fn completes(&self, vals: Seq<u64>, w: Seq<u64>, n: int) -> bool {
        &&& self.is_complete(w)
        &&& self.is_consistent(w)
        &&& forall|a: int| 0 <= a < n ==> #[trigger] w[a] == vals[a]
    }

    /// The first `n` values of `vals` can be completed to a valid board.
    pub open spec fn has_completion(&self, vals: Seq<u64>, n: int) -> bool {
        exists|w: Seq<u64>| self.completes(vals, w, n)
    }

    /// The cells after `index` cannot hide a candidate from the cell at
    /// `index`: they are empty, or the strategy keeps only earlier neighbors.
    pub open spec fn later_ignored(&self, vals: Seq<u64>, index: int) -> bool {
        !self.all_neighbors || forall|a: int| index < a < vals.len() ==> #[trigger] vals[a] == 0
    }

    /// No two cells of the same row, column or block hold the same non-zero
    /// value.
    pub open spec fn is_consistent(&self, vals: Seq<u64>) -> bool {
        forall|a: int, b: int|
            0 <= a < vals.len() && 0 <= b < vals.len() && a != b && self.peers(
                self.coord_of(a),
                self.coord_of(b),
            ) ==> #[trigger] vals[a] == 0 || vals[a] != #[trigger] vals[b]
    }
}

/// The filled-prefix property reads only the first `n` values.
proof fn lemma_prefix_agree(cfg: BoardConfig, x: Seq<u64>, y: Seq<u64>, n: int)
    requires
        cfg.is_filled_prefix(x, n),
        forall|a: int| 0 <= a < n ==> x[a] == y[a],
    ensures
        cfg.is_filled_prefix(y, n),
{
    assert forall|a: int, b: int|
        0 <= a < n && 0 <= b < n && a != b && cfg.peers(cfg.coord_of(a), cfg.coord_of(b)) implies
        #[trigger] y[a] != #[trigger] y[b] by {
        assert(x[a] != x[b]);
    }
    assert forall|a: int| 0 <= a < n implies 1 <= #[trigger] y[a] <= cfg.side() by {
        assert(1 <= x[a] <= cfg.side());
    }
}

/// A legal value that differs from every related earlier cell extends a
/// filled prefix by one cell.
proof fn lemma_extend_prefix(cfg: BoardConfig, vals: Seq<u64>, index: int, v: u64)
    requires
        0 <= index < vals.len(),
        cfg.is_filled_prefix(vals, index),
        1 <= v <= cfg.side(),
        forall|a: int|
            0 <= a < index && cfg.peers(cfg.coord_of(index), cfg.coord_of(a)) ==> vals[a] != v,
    ensures
        cfg.is_filled_prefix(vals.update(index, v), index + 1),
{
    let w = vals.update(index, v);
    assert forall|a: int, b: int|
        0 <= a < index + 1 && 0 <= b < index + 1 && a != b && cfg.peers(
            cfg.coord_of(a),
            cfg.coord_of(b),
        ) implies #[trigger] w[a] != #[trigger] w[b] by {
        if a == index {
            assert(vals[b] != v);
        } else if b == index {
            assert(vals[a] != v);
        } else {
            assert(vals[a] != vals[b]);
        }
    }
    assert forall|a: int| 0 <= a < index + 1 implies 1 <= #[trigger] w[a] <= cfg.side() by {
        if a < index {
            assert(1 <= vals[a] <= cfg.side());
        }
    }
}

/// A board whose every cell is a filled prefix is complete and consistent.
proof fn lemma_full_prefix(cfg: BoardConfig, vals: Seq<u64>)
    requires
        vals.len() == cfg.cell_count(),
        cfg.is_filled_prefix(vals, vals.len() as int),
    ensures
        cfg.is_complete(vals),
        cfg.is_consistent(vals),
{
    assert forall|a: int, b: int|
        0 <= a < vals.len() && 0 <= b < vals.len() && a != b && cfg.peers(
            cfg.coord_of(a),
            cfg.coord_of(b),
        ) implies #[trigger] vals[a] == 0 || vals[a] != #[trigger] vals[b] by {
        assert(vals[a] != vals[b]);
    }
}

/// A board of `cell_count` cells in row-major order, each with its value and
/// its neighbor positions.
pub struct SudokuBoard {
    cells: Vec<SudokuCell>,
    valid_values: Vec<u64>,
    board_config: BoardConfig,
}

impl View for SudokuBoard {
    type V = Seq<u64>;

    /// The values of the cells, in index order.
    closed spec fn view(&self) -> Seq<u64> {
        self.cells@.map_values(|c: SudokuCell| c.value)
    }
}

impl SudokuBoard {
    /// The configuration the board was built for.
    pub closed spec fn config(&self) -> BoardConfig {
        self.board_config
    }

    /// The neighbor positions of the cell at `index`.
    pub closed spec fn neighbor_list(&self, index: int) -> Seq<Coord> {
        self.cells@[index].neighbors@
    }

    /// The neighbor graph: one list per cell, in index order.
    pub closed spec fn neighbor_lists(&self) -> Seq<Seq<Coord>> {
        self.cells@.map_values(|c: SudokuCell| c.neighbors@)
    }

    /// One cell per position, each neighbor list holding, once each, exactly
    /// the positions that the configuration's strategy relates to the cell,
    /// and the legal values 1 ..= side length in order.
    pub closed spec fn wf(&self) -> bool {
        &&& self.board_config.wf()
        &&& self.cells.len() == self.board_config.size_quad
        &&& self.valid_values.len() == self.board_config.size_square
        &&& forall|t: int| 0 <= t < self.valid_values.len() ==> #[trigger] self.valid_values[t] == t + 1
        &&& forall|a: int|
            0 <= a < self.cells.len() ==> (#[trigger] self.cells@[a]).neighbors@.no_duplicates()
        &&& forall|a: int, q: Coord|
            0 <= a < self.cells.len() ==> (#[trigger] self.cells@[a].neighbors@.contains(q)
                <==> self.board_config.is_neighbor(self.board_config.coord_of(a), q))
    }

    /// What a well-formed board shows through its public views.
    pub proof fn lemma_wf_views(&self)
        requires
            self.wf(),
        ensures
            self.config().wf(),
            self@.len() == self.config().cell_count(),
            self.neighbor_lists().len() == self@.len(),
            forall|a: int|
                0 <= a < self@.len() ==> #[trigger] self.neighbor_lists()[a] == self.neighbor_list(a),
            forall|a: int| 0 <= a < self@.len() ==> (#[trigger] self.neighbor_list(a)).no_duplicates(),
            forall|a: int, q: Coord|
                0 <= a < self@.len() ==> (#[trigger] self.neighbor_list(a).contains(q)
                    <==> self.config().is_neighbor(self.config().coord_of(a), q)),
    {
        assert forall|a: int| 0 <= a < self@.len() implies (
        #[trigger] self.neighbor_list(a)).no_duplicates() by {
            assert(self.cells@[a].neighbors@.no_duplicates());
        }
    }

    /// An empty board for `board_config`, with every cell's neighbors built.
    pub fn new(board_config: BoardConfig) -> (r: SudokuBoard)
        requires
            board_config.wf(),
        ensures
            r.wf(),
            r.config() == board_config,
            r@ == Seq::new(board_config.cell_count() as nat, |a: int| 0u64),
    {
        let mut cells: Vec<SudokuCell> = Vec::new();
        let mut index: usize = 0;
        while index < board_config.size_quad
            invariant
                board_config.wf(),
                index <= board_config.size_quad,
                cells.len() == index,
                forall|a: int| 0 <= a < index ==> (#[trigger] cells@[a]).value == 0,
                forall|a: int| 0 <= a < index ==> (#[trigger] cells@[a]).neighbors@.no_duplicates(),
                forall|a: int, q: Coord|
                    0 <= a < index ==> (#[trigger] cells@[a].neighbors@.contains(q)
                        <==> board_config.is_neighbor(board_config.coord_of(a), q)),
            decreases board_config.size_quad - index,
        {
            let coord = index_to_coord(index, &board_config);
            proof {
                lemma_index_coord_round_trip(board_config, index as int);
            }
            cells.push(SudokuCell::new(coord, &board_config));
            index += 1;
        }

        let mut valid_values: Vec<u64> = Vec::new();
        let mut n: usize = 0;
        proof {
            lemma_sizes(board_config);
        }
        while n < board_config.size_square
            invariant
                n <= board_config.size_square,
                valid_values.len() == n,
                forall|t: int| 0 <= t < n ==> #[trigger] valid_values[t] == t + 1,
            decreases board_config.size_square - n,
        {
            valid_values.push((n + 1) as u64);
            n += 1;
        }

        let board = SudokuBoard { cells: cells, valid_values: valid_values, board_config };
        assert(board@ =~= Seq::new(board_config.cell_count() as nat, |a: int| 0u64));
        board
    }

    /// Sets the value of the cell at linear index `index`.
    pub fn mark_cell_pos(&mut self, index: usize, value: u64)
        requires
            old(self).wf(),
            index < old(self)@.len(),
        ensures
            final(self).wf(),
            final(self).config() == old(self).config(),
            final(self).neighbor_lists() == old(self).neighbor_lists(),
            final(self)@ == old(self)@.update(index as int, value),
    {
        let ghost before = *self;
        self.cells[index].value = value;
        proof {
            assert(self@ =~= before@.update(index as int, value));
            assert(self.neighbor_lists() =~= before.neighbor_lists());
            assert forall|a: int, q: Coord|
                0 <= a < self.cells.len() implies (#[trigger] self.cells@[a].neighbors@.contains(q)
                <==> self.board_config.is_neighbor(self.board_config.coord_of(a), q)) by {
                assert(self.cells@[a].neighbors@ == before.cells@[a].neighbors@);
            }
            assert forall|a: int| 0 <= a < self.cells.len() implies (
            #[trigger] self.cells@[a]).neighbors@.no_duplicates() by {
                assert(self.cells@[a].neighbors@ == before.cells@[a].neighbors@);
            }
        }
    }

    /// Sets the value of the cell at `coord`.
    pub fn mark_cell(&mut self, coord: &Coord, value: u64)
        requires
            old(self).wf(),
            old(self).config().in_grid(*coord),
        ensures
            final(self).wf(),
            final(self).config() == old(self).config(),
            final(self).neighbor_lists() == old(self).neighbor_lists(),
            final(self)@ == old(self)@.update(old(self).config().index_of(*coord), value),
    {
        let index = coord_to_index(coord, &self.board_config);
        self.mark_cell_pos(index, value);
    }

    /// Resets every cell to empty; the neighbor graph stays as it is.
    pub fn clear(&mut self)
        requires
            old(self).wf(),
        ensures
            final(self).wf(),
            final(self).config() == old(self).config(),
            final(self).neighbor_lists() == old(self).neighbor_lists(),
            final(self)@ == Seq::new(old(self)@.len(), |a: int| 0u64),
    {
        let ghost before = *self;
        let mut n: usize = 0;
        while n < self.board_config.size_quad
            invariant
                self.wf(),
                self.config() == before.config(),
                self.neighbor_lists() == before.neighbor_lists(),
                self@.len() == before@.len(),
                n <= self.board_config.size_quad,
                forall|a: int| 0 <= a < n ==> self@[a] == 0,
            decreases self.board_config.size_quad - n,
        {
            self.mark_cell_pos(n, 0);
            n += 1;
        }
        assert(self@ =~= Seq::new(before@.len(), |a: int| 0u64));
    }

    /// The positions whose values constrain the cell at `coord`.
    pub fn neighbors(&self, coord: &Coord) -> (r: Vec<Coord>)
        requires
            self.wf(),
            self.config().in_grid(*coord),
        ensures
            r@ == self.neighbor_list(self.config().index_of(*coord)),
    {
        let index = coord_to_index(coord, &self.board_config);
        let list = &self.cells[index].neighbors;
        let mut r: Vec<Coord> = Vec::new();
        let mut t: usize = 0;
        while t < list.len()
            invariant
                t <= list.len(),
                r@ == list@.subrange(0, t as int),
            decreases list.len() - t,
        {
            r.push(list[t]);
            t += 1;
            assert(r@ =~= list@.subrange(0, t as int));
        }
        assert(r@ =~= list@);
        r
    }

    /// The non-zero values held by the neighbors of the cell at `coord`.
    pub fn neighbor_values(&self, coord: &Coord) -> (r: HashSet<u64>)
        requires
            self.wf(),
            self.config().in_grid(*coord),
        ensures
            forall|v: u64|
                r@.contains(v) <==> v != 0 && exists|q: Coord|
                    #![trigger self.neighbor_list(self.config().index_of(*coord)).contains(q)]
                    self.neighbor_list(self.config().index_of(*coord)).contains(q)
                        && self@[self.config().index_of(q)] == v,
    {
        let index = coord_to_index(coord, &self.board_config);
        let list = &self.cells[index].neighbors;
        let mut values: HashSet<u64> = HashSet::new();
        let mut t: usize = 0;
        while t < list.len()
            invariant
                self.wf(),
                0 <= index < self.cells.len(),
                list@ == self.cells@[index as int].neighbors@,
                t <= list.len(),
                forall|v: u64|
                    values@.contains(v) <==> v != 0 && exists|u: int|
                        0 <= u < t && #[trigger] self@[self.config().index_of(list@[u])] == v,
            decreases list.len() - t,
        {
            let q = list[t];
            assert(list@.contains(q));
            let cell_index = coord_to_index(&q, &self.board_config);
            let value = self.cells[cell_index].value;
            if value != 0 {
                values.insert(value);
            }
            t += 1;
            proof {
                assert forall|v: u64|
                    values@.contains(v) <==> v != 0 && exists|u: int|
                        0 <= u < t && #[trigger] self@[self.config().index_of(list@[u])] == v by {
                    if v != 0 && v == value {
                        assert(self@[self.config().index_of(list@[t - 1])] == v);
                    }
                }
            }
        }
        proof {
            assert(self.neighbor_list(self.config().index_of(*coord)) == list@);
            assert forall|v: u64|
                values@.contains(v) <==> v != 0 && exists|q: Coord|
                    #![trigger self.neighbor_list(self.config().index_of(*coord)).contains(q)]
                    self.neighbor_list(self.config().index_of(*coord)).contains(q)
                        && self@[self.config().index_of(q)] == v by {
                if values@.contains(v) {
                    let u = choose|u: int|
                        0 <= u < t && #[trigger] self@[self.config().index_of(list@[u])] == v;
                    assert(list@.contains(list@[u]));
                    assert(self.neighbor_list(self.config().index_of(*coord)).contains(list@[u]));
                }
                if v != 0 && exists|q: Coord|
                    #![trigger self.neighbor_list(self.config().index_of(*coord)).contains(q)]
                    self.neighbor_list(self.config().index_of(*coord)).contains(q)
                        && self@[self.config().index_of(q)] == v {
                    let q = choose|q: Coord|
                        #![trigger self.neighbor_list(self.config().index_of(*coord)).contains(q)]
                        self.neighbor_list(self.config().index_of(*coord)).contains(q)
                            && self@[self.config().index_of(q)] == v;
                    let u = choose|u: int| 0 <= u < list@.len() && list@[u] == q;
                    assert(self@[self.config().index_of(list@[u])] == v);
                }
            }
        }
        values
    }

    /// Number of cells on the board.
    pub fn cell_count(&self) -> (r: usize)
        requires
            self.wf(),
        ensures
            r == self@.len(),
    {
        self.board_config.size_quad
    }

    /// The value of the cell at linear index `index`.
    pub fn value_at_index(&self, index: usize) -> (r: u64)
        requires
            self.wf(),
            index < self@.len(),
        ensures
            r == self@[index as int],
    {
        self.cells[index].value
    }

    /// The value at (`row`, `col`), or `IndexOutOfRange` off the board.
    pub fn value_at(&self, row: usize, col: usize) -> (r: Result<u64, SudokuError>)
        requires
            self.wf(),
        ensures
            r is Ok <==> self.config().in_grid(Coord { i: row, j: col }),
            r matches Ok(v) ==> v == self@[self.config().index_of(Coord { i: row, j: col })],
            r matches Err(e) ==> e == SudokuError::IndexOutOfRange,
    {
        if row >= self.board_config.size_square || col >= self.board_config.size_square {
            return Err(SudokuError::IndexOutOfRange);
        }
        let index = coord_to_index(&Coord { i: row, j: col }, &self.board_config);
        Ok(self.cells[index].value)
    }

    /// Fills the board by backtracking, starting from the first cell.
    ///
    /// Each cell in turn takes, in random order, the legal values that its
    /// neighbors do not hold; a cell that runs out of candidates is emptied
    /// and the search goes back to the previous one. The search is complete,
    /// and a valid board always exists, so it succeeds whenever no stale value
    /// after the first cell can get in its way: on an empty board, or under
    /// the fill-order strategy on any board.
    pub fn fill(&mut self, rng: &mut rand::StdRng) -> (r: Result<(), SudokuError>)
        requires
            old(self).wf(),
        ensures
            final(self).wf(),
            final(self).config() == old(self).config(),
            final(self).neighbor_lists() == old(self).neighbor_lists(),
            r is Ok ==> final(self).config().is_complete(final(self)@) && final(self).config().is_consistent(
                final(self)@,
            ),
            r matches Err(e) ==> e == SudokuError::GenerationExhausted && final(self)@[0] == 0,
            old(self).config().later_ignored(old(self)@, 0) ==> r is Ok,
    {
        proof {
            lemma_sizes(self.board_config);
            self.lemma_wf_views();
        }
        let ghost before = self@;
        let done = self.do_fill(0, rng);
        proof {
            let cfg = self.board_config;
            if !done && cfg.later_ignored(before, 0) {
                lemma_solution_exists(cfg);
                let w = choose|w: Seq<u64>| cfg.is_complete(w) && cfg.is_consistent(w);
                assert(cfg.completes(before, w, 0));
            }
        }
        if done {
            Ok(())
        } else {
            Err(SudokuError::GenerationExhausted)
        }
    }

    /// Fills the cells from `index` on, the cells before it being filled
    /// already. On failure the cells before `index` are as they were, the
    /// cell at `index` is empty, each later cell is empty or as it was, and,
    /// where no later value could hide a candidate, no valid board extends
    /// the cells before `index`.
    fn do_fill(&mut self, index: usize, rng: &mut rand::StdRng) -> (r: bool)
        requires
            old(self).wf(),
            index < old(self)@.len(),
            old(self).config().is_filled_prefix(old(self)@, index as int),
        ensures
            final(self).wf(),
            final(self).config() == old(self).config(),
            final(self).neighbor_lists() == old(self).neighbor_lists(),
            final(self)@.len() == old(self)@.len(),
            r ==> final(self).config().is_complete(final(self)@) && final(self).config().is_consistent(
                final(self)@,
            ),
            forall|a: int| 0 <= a < index ==> final(self)@[a] == old(self)@[a],
            !r ==> final(self)@[index as int] == 0,
            !r ==> forall|a: int|
                index < a < old(self)@.len() ==> #[trigger] final(self)@[a] == 0 || final(self)@[a]
                    == old(self)@[a],
            !r && old(self).config().later_ignored(old(self)@, index as int) ==> !old(
                self,
            ).config().has_completion(old(self)@, index as int),
        decreases old(self)@.len() - index,
    {
        let ghost b0 = *self;
        let ghost cfg = self.board_config;
        proof {
            self.lemma_wf_views();
            lemma_index_coord_round_trip(cfg, index as int);
        }
        let pos = index_to_coord(index, &self.board_config);
        let used = self.neighbor_values(&pos);

        // the legal values that no neighbor holds yet
        let mut remaining: Vec<u64> = Vec::new();
        let mut t: usize = 0;
        while t < self.valid_values.len()
            invariant
                self.wf(),
                t <= self.valid_values.len(),
                remaining@.no_duplicates(),
                forall|x: u64| remaining@.contains(x) <==> (1 <= x <= t && !used@.contains(x)),
            decreases self.valid_values.len() - t,
        {
            let v = self.valid_values[t];
            if !used.contains(&v) {
                proof {
                    lemma_push_fresh(remaining@, v);
                }
                remaining.push(v);
            }
            t += 1;
        }
        let ghost ordered = remaining@;
        shuffle_values(rng, &mut remaining);
        proof {
            ordered.to_multiset_ensures();
            remaining@.to_multiset_ensures();
            assert forall|x: u64|
                remaining@.contains(x) <==> 1 <= x <= cfg.side() && !used@.contains(x) by {
                if remaining@.contains(x) {
                    assert(remaining@.to_multiset().count(x) > 0);
                }
                if ordered.contains(x) {
                    assert(ordered.to_multiset().count(x) > 0);
                }
            }
        }

        let mut c: usize = 0;
        let mut done = false;
        while c < remaining.len() && !done
            invariant
                b0 == *old(self),
                c <= remaining.len(),
                done ==> cfg.is_complete(self@) && cfg.is_consistent(self@),
                b0.wf(),
                self.wf(),
                cfg == b0.config(),
                self.config() == cfg,
                self.neighbor_lists() == b0.neighbor_lists(),
                self@.len() == b0@.len(),
                index < b0@.len(),
                pos == cfg.coord_of(index as int),
                cfg.in_grid(pos),
                cfg.index_of(pos) == index,
                cfg.is_filled_prefix(b0@, index as int),
                forall|a: int| 0 <= a < index ==> self@[a] == b0@[a],
                forall|x: u64|
                    remaining@.contains(x) <==> 1 <= x <= cfg.side() && !used@.contains(x),
                !done ==> forall|a: int|
                    index < a < self@.len() ==> #[trigger] self@[a] == 0 || self@[a] == b0@[a],
                !done && cfg.later_ignored(b0@, index as int) ==> forall|t: int|
                    0 <= t < c ==> !cfg.has_completion(
                        b0@.update(index as int, #[trigger] remaining@[t]),
                        index + 1,
                    ),
                forall|v: u64|
                    used@.contains(v) <==> v != 0 && exists|q: Coord|
                        #![trigger b0.neighbor_list(index as int).contains(q)]
                        b0.neighbor_list(index as int).contains(q) && b0@[cfg.index_of(q)] == v,
            decreases remaining.len() - c + (if done { 0int } else { 1int }),
        {
            let v = remaining[c];
            assert(remaining@.contains(v));
            let ghost prev = self@;
            self.mark_cell_pos(index, v);
            proof {
                b0.lemma_wf_views();
                assert forall|a: int|
                    0 <= a < index && cfg.peers(
                        cfg.coord_of(index as int),
                        cfg.coord_of(a),
                    ) implies prev[a] != v by {
                    lemma_index_coord_round_trip(cfg, a);
                    let q = cfg.coord_of(a);
                    assert(b0.neighbor_list(index as int).contains(q));
                    assert(1 <= b0@[a]);
                    assert(used@.contains(b0@[a]));
                }
                lemma_prefix_agree(cfg, b0@, prev, index as int);
                lemma_extend_prefix(cfg, prev, index as int, v);
            }
            if index == self.board_config.size_quad - 1 {
                proof {
                    lemma_full_prefix(cfg, self@);
                }
                done = true;
            } else {
                let ghost mid = self@;
                if self.do_fill(index + 1, rng) {
                    done = true;
                } else {
                    proof {
                        if cfg.later_ignored(b0@, index as int) {
                            assert(cfg.later_ignored(mid, index + 1));
                            let b1 = b0@.update(index as int, v);
                            assert forall|w: Seq<u64>| !#[trigger] cfg.completes(b1, w, index + 1) by {
                                if cfg.completes(b1, w, index + 1) {
                                    assert(cfg.completes(mid, w, index + 1));
                                }
                            }
                            assert(remaining@[c as int] == v);
                        }
                    }
                    c += 1;
                }
            }
        }
        if !done {
            proof {
                if cfg.later_ignored(b0@, index as int) && cfg.has_completion(b0@, index as int) {
                    let w = choose|w: Seq<u64>| cfg.completes(b0@, w, index as int);
                    let x = w[index as int];
                    b0.lemma_wf_views();
                    if used@.contains(x) {
                        let q = choose|q: Coord|
                            #![trigger b0.neighbor_list(index as int).contains(q)]
                            b0.neighbor_list(index as int).contains(q) && b0@[cfg.index_of(q)] == x;
                        let a = cfg.index_of(q);
                        lemma_index_in_range(cfg, q);
                        lemma_coord_index_round_trip(cfg, q);
                        assert(cfg.is_neighbor(pos, q));
                        if a < index {
                            assert(w[a] == b0@[a]);
                            assert(cfg.peers(cfg.coord_of(index as int), cfg.coord_of(a)));
                            assert(w[index as int] != w[a]);
                        } else {
                            assert(a != index);
                            assert(b0@[a] == 0);
                        }
                    }
                    assert(remaining@.contains(x));
                    let t = choose|t: int| 0 <= t < remaining@.len() && remaining@[t] == x;
                    let b1 = b0@.update(index as int, remaining@[t]);
                    assert(cfg.completes(b1, w, index + 1));
                }
            }
            self.mark_cell_pos(index, 0);
        }
        done
    }
}

/// Under the exhaustive strategy the neighbor relation is symmetric: when
/// `b` is among the neighbors of `a`, `a` is among the neighbors of `b`.
pub proof fn lemma_exhaustive_neighbors_symmetric(board: SudokuBoard, a: Coord, b: Coord)
    requires
        board.wf(),
        board.config().all_neighbors,
        board.config().in_grid(a),
        board.neighbor_list(board.config().index_of(a)).contains(b),
    ensures
        board.neighbor_list(board.config().index_of(b)).contains(a),
{
    let cfg = board.config();
    board.lemma_wf_views();
    lemma_index_in_range(cfg, a);
    lemma_coord_index_round_trip(cfg, a);
    assert(cfg.is_neighbor(a, b));
    lemma_index_in_range(cfg, b);
    lemma_coord_index_round_trip(cfg, b);
    assert(cfg.is_neighbor(b, a));
}

/// Under the fill-order strategy every neighbor of a cell lies on the board
/// and comes strictly before the cell in index order.
pub proof fn lemma_fill_order_neighbors_precede(board: SudokuBoard, index: int, q: Coord)
    requires
        board.wf(),
        !board.config().all_neighbors,
        0 <= index < board@.len(),
        board.neighbor_list(index).contains(q),
    ensures
        board.config().in_grid(q),
        board.config().index_of(q) < index,
{
    let cfg = board.config();
    board.lemma_wf_views();
    lemma_index_coord_round_trip(cfg, index);
}

/// A board that `clear` has emptied can be filled again under either
/// strategy: by `fill`'s contract the fill then succeeds with a complete,
/// consistent board, and the neighbor graph is the one the board was built
/// with.
pub proof fn lemma_cleared_board_refills(board: SudokuBoard)
    requires
        board.wf(),
        board@ == Seq::new(board@.len(), |a: int| 0u64),
    ensures
        board.config().later_ignored(board@, 0),
        board.config().has_completion(board@, 0),
{
    let cfg = board.config();
    board.lemma_wf_views();
    lemma_solution_exists(cfg);
    let w = choose|w: Seq<u64>| cfg.is_complete(w) && cfg.is_consistent(w);
    assert(cfg.completes(board@, w, 0));
}

} // verus!
