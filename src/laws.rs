use vstd::prelude::*;
use crate::rules::{
    agree_before, before, first_completion, fits, is_completion, keeps_clue, lex_less, on_board,
    peers, solvable, solved_grid,
};

verus! {

/// Every completion of a board, and so what a successful solve leaves, is a
/// solved grid: no row, column or box has a zero or a repeat.
pub proof fn lemma_completion_is_solved(g: Seq<Seq<u8>>, s: Seq<Seq<u8>>)
    requires
        is_completion(g, s),
    ensures
        solved_grid(s),
{
    assert forall|r: int, c: int| on_board(r, c) implies 1 <= #[trigger] s[r][c] <= 9 by {
        assert(fits(s, r, c));
    }
    assert forall|r1: int, c1: int, r2: int, c2: int|
        on_board(r1, c1) && on_board(r2, c2) && peers(r1, c1, r2, c2) implies #[trigger] s[r1][c1]
        != #[trigger] s[r2][c2] by {
        assert(fits(s, r1, c1));
    }
}

/// Every clue of a board keeps its value in each completion of the board.
pub proof fn lemma_clues_kept(g: Seq<Seq<u8>>, s: Seq<Seq<u8>>)
    requires
        is_completion(g, s),
    ensures
        forall|r: int, c: int| on_board(r, c) && g[r][c] != 0 ==> #[trigger] s[r][c] == g[r][c],
{
    assert forall|r: int, c: int| on_board(r, c) && g[r][c] != 0 implies #[trigger] s[r][c]
        == g[r][c] by {
        assert(keeps_clue(g, s, r, c));
    }
}

/// A board has at most one first completion, so solving equal boards gives
/// equal results.
pub proof fn lemma_first_completion_unique(g: Seq<Seq<u8>>, a: Seq<Seq<u8>>, b: Seq<Seq<u8>>)
    requires
        first_completion(g, a),
        first_completion(g, b),
    ensures
        a == b,
{
    if a != b {
        assert(lex_less(a, b));
        assert(lex_less(b, a));
        let (r1, c1) = choose|r: int, c: int|
            on_board(r, c) && a[r][c] < b[r][c] && agree_before(a, b, r, c);
        let (r2, c2) = choose|r: int, c: int|
            on_board(r, c) && b[r][c] < a[r][c] && agree_before(b, a, r, c);
        if before(r1, c1, r2, c2) {
            assert(b[r1][c1] == a[r1][c1]);
        } else if before(r2, c2, r1, c1) {
            assert(a[r2][c2] == b[r2][c2]);
        }
    }
}

/// Two cells of one row, column or box that hold the same clue leave the
/// board with no completion, so solving it fails.
pub proof fn lemma_clashing_clues_unsolvable(g: Seq<Seq<u8>>, r1: int, c1: int, r2: int, c2: int)
    requires
        on_board(r1, c1),
        on_board(r2, c2),
        peers(r1, c1, r2, c2),
        g[r1][c1] != 0,
        g[r1][c1] == g[r2][c2],
    ensures
        !solvable(g),
{
    assert forall|s: Seq<Seq<u8>>| !is_completion(g, s) by {
        if is_completion(g, s) {
            assert(keeps_clue(g, s, r1, c1));
            assert(keeps_clue(g, s, r2, c2));
            assert(fits(s, r1, c1));
            assert(s[r2][c2] == s[r2][c2]);
        }
    }
}

} // verus!
