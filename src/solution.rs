//! Every well-formed configuration admits a complete, consistent board.

use crate::config::{lemma_index_coord_round_trip, lemma_sizes, BoardConfig};
use vstd::arithmetic::div_mod::{lemma_fundamental_div_mod, lemma_fundamental_div_mod_converse};
use vstd::prelude::*;

verus! {

impl BoardConfig {
    /// Some complete, consistent board exists for this configuration.
    pub open spec fn has_solution(&self) -> bool {
        exists|w: Seq<u64>| self.is_complete(w) && self.is_consistent(w)
    }
}

/// The value of the shifted-row pattern at row `r`, column `c`: row
/// `r = a·k + b` starts at `b·k + a`, and each row counts up modulo k².
pub open spec fn pattern_value(k: int, r: int, c: int) -> int {
    ((r % k) * k + r / k + c) % (k * k) + 1
}

/// The shifted-row pattern as a board.
pub open spec fn pattern_board(cfg: BoardConfig) -> Seq<u64> {
    Seq::new(
        cfg.cell_count() as nat,
        |a: int|
            pattern_value(cfg.size as int, a / cfg.side(), a % cfg.side()) as u64,
    )
}

/// Two numbers less than `s` apart with the same remainder modulo `s` are equal.
proof fn lemma_mod_eq_close(x: int, y: int, s: int)
    requires
        s > 0,
        x >= 0,
        y >= 0,
        x - y < s,
        y - x < s,
        x % s == y % s,
    ensures
        x == y,
{
    lemma_fundamental_div_mod(x, s);
    lemma_fundamental_div_mod(y, s);
    let d = x / s - y / s;
    assert(x - y == s * d) by (nonlinear_arith)
        requires x == s * (x / s) + x % s, y == s * (y / s) + y % s, x % s == y % s, d == x / s - y / s;
    assert(d == 0) by (nonlinear_arith)
        requires x - y == s * d, x - y < s, y - x < s, s > 0;
}

/// The starting offset `(r mod k)·k + r / k` of a row below k² lies in
/// [0, k²), and two rows with the same offset are the same row.
proof fn lemma_row_offset(k: int, r1: int, r2: int)
    requires
        k >= 1,
        0 <= r1 < k * k,
        0 <= r2 < k * k,
    ensures
        0 <= (r1 % k) * k + r1 / k < k * k,
        (r1 % k) * k + r1 / k == (r2 % k) * k + r2 / k ==> r1 == r2,
{
    lemma_fundamental_div_mod(r1, k);
    lemma_fundamental_div_mod(r2, k);
    assert(0 <= r1 / k < k) by (nonlinear_arith)
        requires 0 <= r1 < k * k, r1 == k * (r1 / k) + r1 % k, 0 <= r1 % k < k, k >= 1;
    assert(0 <= r2 / k < k) by (nonlinear_arith)
        requires 0 <= r2 < k * k, r2 == k * (r2 / k) + r2 % k, 0 <= r2 % k < k, k >= 1;
    assert(0 <= (r1 % k) * k + r1 / k < k * k) by (nonlinear_arith)
        requires 0 <= r1 / k < k, 0 <= r1 % k < k, k >= 1;
    let f1 = (r1 % k) * k + r1 / k;
    let f2 = (r2 % k) * k + r2 / k;
    if f1 == f2 {
        assert(f1 == k * (r1 % k) + r1 / k) by (nonlinear_arith)
            requires f1 == (r1 % k) * k + r1 / k;
        assert(f2 == k * (r2 % k) + r2 / k) by (nonlinear_arith)
            requires f2 == (r2 % k) * k + r2 / k;
        lemma_fundamental_div_mod_converse(f1, k, r1 % k, r1 / k);
        lemma_fundamental_div_mod_converse(f2, k, r2 % k, r2 / k);
    }
}

/// Two distinct cells of the same block get different pattern values.
proof fn lemma_pattern_block(k: int, r1: int, c1: int, r2: int, c2: int)
    requires
        k >= 1,
        0 <= r1 < k * k,
        0 <= r2 < k * k,
        0 <= c1 < k * k,
        0 <= c2 < k * k,
        r1 / k == r2 / k,
        c1 / k == c2 / k,
        pattern_value(k, r1, c1) == pattern_value(k, r2, c2),
    ensures
        r1 == r2 && c1 == c2,
{
    let s = k * k;
    lemma_fundamental_div_mod(r1, k);
    lemma_fundamental_div_mod(r2, k);
    lemma_fundamental_div_mod(c1, k);
    lemma_fundamental_div_mod(c2, k);
    let x = (r1 % k) * k + r1 / k + c1;
    let y = (r2 % k) * k + r2 / k + c2;
    let dr = r1 % k - r2 % k;
    let dc = c1 % k - c2 % k;
    assert(c1 - c2 == dc) by (nonlinear_arith)
        requires c1 == k * (c1 / k) + c1 % k, c2 == k * (c2 / k) + c2 % k, c1 / k == c2 / k, dc
            == c1 % k - c2 % k;
    assert(x - y == dr * k + dc) by (nonlinear_arith)
        requires x == (r1 % k) * k + r1 / k + c1, y == (r2 % k) * k + r2 / k + c2, r1 / k == r2
            / k, c1 - c2 == dc, dr == r1 % k - r2 % k;
    assert(-s < dr * k + dc < s) by (nonlinear_arith)
        requires -k < dr < k, -k < dc < k, s == k * k, k >= 1;
    assert(x >= 0 && y >= 0) by (nonlinear_arith)
        requires x == (r1 % k) * k + r1 / k + c1, y == (r2 % k) * k + r2 / k + c2, 0 <= r1 % k,
            0 <= r2 % k, 0 <= r1 / k, 0 <= r2 / k, c1 >= 0, c2 >= 0, k >= 1;
    lemma_mod_eq_close(x, y, s);
    assert(dr == 0 && dc == 0) by (nonlinear_arith)
        requires dr * k + dc == 0, -k < dr < k, -k < dc < k, k >= 1;
}

/// Every well-formed configuration admits a complete, consistent board:
/// the shifted-row pattern is one.
pub proof fn lemma_solution_exists(cfg: BoardConfig)
    requires
        cfg.wf(),
    ensures
        cfg.has_solution(),
{
    let w = pattern_board(cfg);
    let k = cfg.size as int;
    let s = cfg.side();
    let n = cfg.cell_count();
    lemma_sizes(cfg);
    assert forall|a: int| 0 <= a < w.len() implies 1 <= #[trigger] w[a] <= cfg.side() by {
        lemma_index_coord_round_trip(cfg, a);
        let v = ((a / s % k) * k + a / s / k + a % s) % s;
        assert(0 <= v < s);
        assert(w[a] as int == v + 1);
    }
    assert forall|a: int, b: int|
        0 <= a < w.len() && 0 <= b < w.len() && a != b && cfg.peers(
            cfg.coord_of(a),
            cfg.coord_of(b),
        ) implies #[trigger] w[a] == 0 || w[a] != #[trigger] w[b] by {
        lemma_index_coord_round_trip(cfg, a);
        lemma_index_coord_round_trip(cfg, b);
        let (r1, c1, r2, c2) = (a / s, a % s, b / s, b % s);
        lemma_row_offset(k, r1, r2);
        lemma_row_offset(k, r2, r1);
        let x = (r1 % k) * k + r1 / k + c1;
        let y = (r2 % k) * k + r2 / k + c2;
        assert(0 <= x % s < s && 0 <= y % s < s);
        assert(w[a] as int == x % s + 1);
        assert(w[b] as int == y % s + 1);
        if w[a] == w[b] {
            assert(pattern_value(k, r1, c1) == pattern_value(k, r2, c2));
            if r1 == r2 {
                lemma_mod_eq_close(x, y, s);
            } else if c1 == c2 {
                lemma_mod_eq_close(x, y, s);
            } else {
                lemma_pattern_block(k, r1, c1, r2, c2);
            }
            assert(r1 == r2 && c1 == c2);
            assert(a == cfg.index_of(cfg.coord_of(a)));
            assert(b == cfg.index_of(cfg.coord_of(b)));
        }
    }
    assert(cfg.is_complete(w) && cfg.is_consistent(w));
}

} // verus!
