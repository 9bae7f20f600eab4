//! Text form of a board: the cell values in index order, in decimal,
//! separated by `|`.

use crate::board::SudokuBoard;
use vstd::prelude::*;
use vstd::string::StringExecFns;

verus! {

/// The decimal digit `d`.
pub open spec fn digit(d: int) -> char {
    seq!['0', '1', '2', '3', '4', '5', '6', '7', '8', '9'][d]
}

/// The decimal notation of `n`, without leading zeros.
pub open spec fn decimal(n: nat) -> Seq<char>
    decreases n,
{
    if n < 10 {
        seq![digit(n as int)]
    } else {
        decimal(n / 10) + seq![digit((n % 10) as int)]
    }
}

/// Each value in decimal, each followed by `|`.
pub open spec fn pipe_terminated(vals: Seq<u64>) -> Seq<char>
    decreases vals.len(),
{
    if vals.len() == 0 {
        Seq::empty()
    } else {
        pipe_terminated(vals.drop_last()) + decimal(vals.last() as nat) + seq!['|']
    }
}

/// The values in decimal, with `|` between each two.
pub open spec fn pipe_joined(vals: Seq<u64>) -> Seq<char>
    decreases vals.len(),
{
    if vals.len() == 0 {
        Seq::empty()
    } else if vals.len() == 1 {
        decimal(vals[0] as nat)
    } else {
        pipe_joined(vals.drop_last()) + seq!['|'] + decimal(vals.last() as nat)
    }
}

fn digit_str(d: u64) -> (r: &'static str)
    requires
        d < 10,
    ensures
        r@ == seq![digit(d as int)],
{
    proof {
        reveal_strlit("0");
        reveal_strlit("1");
        reveal_strlit("2");
        reveal_strlit("3");
        reveal_strlit("4");
        reveal_strlit("5");
        reveal_strlit("6");
        reveal_strlit("7");
        reveal_strlit("8");
        reveal_strlit("9");
    }
    match d {
        0 => "0",
        1 => "1",
        2 => "2",
        3 => "3",
        4 => "4",
        5 => "5",
        6 => "6",
        7 => "7",
        8 => "8",
        _ => "9",
    }
}

/// Appends the decimal notation of `n` to `out`.
fn push_decimal(n: u64, out: &mut String)
    ensures
        final(out)@ == old(out)@ + decimal(n as nat),
    decreases n,
{
    if n >= 10 {
        push_decimal(n / 10, out);
    }
    out.append(digit_str(n % 10));
    proof {
        assert(final(out)@ =~= old(out)@ + decimal(n as nat));
    }
}

fn pipe() -> (r: &'static str)
    ensures
        r@ == seq!['|'],
{
    proof {
        reveal_strlit("|");
    }
    "|"
}

impl SudokuBoard {
    /// The cell values in index order, each followed by `|`.
    pub fn serialize(&self) -> (r: String)
        requires
            self.wf(),
        ensures
            r@ == pipe_terminated(self@),
    {
        proof {
            self.lemma_wf_views();
        }
        let mut result = String::new();
        let mut t: usize = 0;
        while t < self.cell_count()
            invariant
                self.wf(),
                t <= self@.len(),
                result@ == pipe_terminated(self@.subrange(0, t as int)),
            decreases self@.len() - t,
        {
            let value = self.value_at_index(t);
            push_decimal(value, &mut result);
            result.append(pipe());
            proof {
                assert(self@.subrange(0, t + 1).drop_last() =~= self@.subrange(0, t as int));
            }
            t += 1;
        }
        assert(self@.subrange(0, self@.len() as int) =~= self@);
        result
    }
}

/// The cell values of `board` in index order, with `|` between each two.
#[allow(non_snake_case)]
pub fn serializeBoard(board: &SudokuBoard) -> (r: String)
    requires
        board.wf(),
    ensures
        r@ == pipe_joined(board@),
{
    proof {
        board.lemma_wf_views();
    }
    let mut result = String::new();
    let mut t: usize = 0;
    while t < board.cell_count()
        invariant
            board.wf(),
            t <= board@.len(),
            result@ == pipe_joined(board@.subrange(0, t as int)),
        decreases board@.len() - t,
    {
        if t > 0 {
            result.append(pipe());
        }
        let value = board.value_at_index(t);
        push_decimal(value, &mut result);
        proof {
            assert(board@.subrange(0, t + 1).drop_last() =~= board@.subrange(0, t as int));
        }
        t += 1;
    }
    assert(board@.subrange(0, board@.len() as int) =~= board@);
    result
}

} // verus!
