//! What a move earns.

use vstd::prelude::*;

verus! {

/// What is earned beyond the moves when the board is cleared.
pub const CLEAR_BONUS: u32 = 1000;

/// The score of a move that removes `n` tiles.
pub open spec fn score_of(n: int) -> int {
    (n - 2) * (n - 2)
}

/// The score of a move that removes `pos_len` tiles. A move removes at
/// least two tiles; the upper limit keeps the score inside `u32`.
pub fn turn_score(pos_len: usize) -> (score: u32)
    requires
        2 <= pos_len <= 65_537,
    ensures
        score == score_of(pos_len as int),
{
    let n: u64 = (pos_len - 2) as u64;
    assert(n * n <= 65_535 * 65_535) by (nonlinear_arith)
        requires
            n <= 65_535,
    ;
    (n * n) as u32
}

} // verus!
