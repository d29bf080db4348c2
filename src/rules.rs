use vstd::prelude::*;

verus! {

/// A grid is nine rows of nine cells.
pub open spec fn shaped(g: Seq<Seq<u8>>) -> bool {
    &&& g.len() == 9
    &&& forall|r: int| 0 <= r < 9 ==> (#[trigger] g[r]).len() == 9
}

/// `(r, c)` names a cell of the board.
pub open spec fn on_board(r: int, c: int) -> bool {
    0 <= r < 9 && 0 <= c < 9
}

/// Every cell holds 0 (empty) or a digit from 1 to 9.
pub open spec fn well_formed(g: Seq<Seq<u8>>) -> bool {
    &&& shaped(g)
    &&& forall|r: int, c: int| on_board(r, c) ==> #[trigger] g[r][c] <= 9
}

/// The board with every cell empty.
pub open spec fn empty_grid() -> Seq<Seq<u8>> {
    Seq::new(9, |r: int| Seq::new(9, |c: int| 0u8))
}

/// The two cells are in one row, one column or one 3x3 box; a cell shares a unit with itself.
pub open spec fn shares_unit(r1: int, c1: int, r2: int, c2: int) -> bool {
    r1 == r2 || c1 == c2 || (r1 / 3 == r2 / 3 && c1 / 3 == c2 / 3)
}

/// Two different cells that share a row, a column or a box.
pub open spec fn peers(r1: int, c1: int, r2: int, c2: int) -> bool {
    shares_unit(r1, c1, r2, c2) && !(r1 == r2 && c1 == c2)
}

/// `v` may be written at `(r, c)`: no cell of its row, its column or its box holds `v`.
pub open spec fn can_place(g: Seq<Seq<u8>>, r: int, c: int, v: u8) -> bool {
    forall|r2: int, c2: int|
        on_board(r2, c2) && shares_unit(r, c, r2, c2) ==> #[trigger] g[r2][c2] != v
}

/// A clue (a non-zero cell of `g`) keeps its value in `s`.
pub open spec fn keeps_clue(g: Seq<Seq<u8>>, s: Seq<Seq<u8>>, r: int, c: int) -> bool {
    g[r][c] != 0 ==> s[r][c] == g[r][c]
}

/// The cell `(r, c)` of `s` holds a digit that none of its peers holds.
pub open spec fn fits(s: Seq<Seq<u8>>, r: int, c: int) -> bool {
    &&& 1 <= s[r][c] <= 9
    &&& forall|r2: int, c2: int|
        on_board(r2, c2) && peers(r, c, r2, c2) ==> #[trigger] s[r2][c2] != s[r][c]
}

/// `s` is a solved Sudoku that keeps every clue of `g`: each of its cells
/// holds a digit that no peer of the cell holds.
pub open spec fn is_completion(g: Seq<Seq<u8>>, s: Seq<Seq<u8>>) -> bool {
    &&& shaped(s)
    &&& forall|r: int, c: int|
        #![trigger s[r][c]]
        on_board(r, c) ==> keeps_clue(g, s, r, c) && fits(s, r, c)
}

/// Every cell holds a digit from 1 to 9 and no two peers hold the same digit:
/// each row, column and box holds each digit once.
pub open spec fn solved_grid(s: Seq<Seq<u8>>) -> bool {
    &&& shaped(s)
    &&& forall|r: int, c: int| on_board(r, c) ==> 1 <= #[trigger] s[r][c] <= 9
    &&& forall|r1: int, c1: int, r2: int, c2: int|
        #![trigger s[r1][c1], s[r2][c2]]
        on_board(r1, c1) && on_board(r2, c2) && peers(r1, c1, r2, c2) ==> s[r1][c1] != s[r2][c2]
}

/// If `(r, c)` holds a clue, no peer of it holds the same digit.
pub open spec fn clue_clear(g: Seq<Seq<u8>>, r: int, c: int) -> bool {
    g[r][c] != 0 ==> forall|r2: int, c2: int|
        on_board(r2, c2) && peers(r, c, r2, c2) ==> #[trigger] g[r2][c2] != g[r][c]
}

/// No two clues of `g` that are peers hold the same digit.
pub open spec fn clues_consistent(g: Seq<Seq<u8>>) -> bool {
    forall|r: int, c: int| on_board(r, c) ==> #[trigger] clue_clear(g, r, c)
}

/// Some completion of `g` exists.
pub open spec fn solvable(g: Seq<Seq<u8>>) -> bool {
    exists|s: Seq<Seq<u8>>| is_completion(g, s)
}

/// No completion of `g` holds `v` at `(r, c)`.
pub open spec fn excluded(g: Seq<Seq<u8>>, r: int, c: int, v: int) -> bool {
    forall|s: Seq<Seq<u8>>| #[trigger] is_completion(g, s) ==> s[r][c] != v
}

/// Cell `(r1, c1)` comes before cell `(r2, c2)` in row-major order.
pub open spec fn before(r1: int, c1: int, r2: int, c2: int) -> bool {
    r1 < r2 || (r1 == r2 && c1 < c2)
}

/// `a` and `b` agree on every cell that comes before `(r, c)`.
pub open spec fn agree_before(a: Seq<Seq<u8>>, b: Seq<Seq<u8>>, r: int, c: int) -> bool {
    forall|r2: int, c2: int|
        on_board(r2, c2) && before(r2, c2, r, c) ==> #[trigger] a[r2][c2] == b[r2][c2]
}

/// `a` comes before `b` when both are read cell by cell in row-major order.
pub open spec fn lex_less(a: Seq<Seq<u8>>, b: Seq<Seq<u8>>) -> bool {
    exists|r: int, c: int| on_board(r, c) && a[r][c] < b[r][c] && agree_before(a, b, r, c)
}

/// `s` is the completion of `g` that comes first in row-major order.
pub open spec fn first_completion(g: Seq<Seq<u8>>, s: Seq<Seq<u8>>) -> bool {
    &&& is_completion(g, s)
    &&& forall|t: Seq<Seq<u8>>| #[trigger] is_completion(g, t) ==> t == s || lex_less(s, t)
}

/// `g` with the cell `(r, c)` set to `v`.
pub open spec fn put(g: Seq<Seq<u8>>, r: int, c: int, v: u8) -> Seq<Seq<u8>> {
    g.update(r, g[r].update(c, v))
}

/// `(r, c)` is empty and every cell before it is filled.
pub open spec fn first_empty(g: Seq<Seq<u8>>, r: int, c: int) -> bool {
    &&& on_board(r, c)
    &&& g[r][c] == 0
    &&& forall|r2: int, c2: int| on_board(r2, c2) && before(r2, c2, r, c) ==> #[trigger] g[r2][c2] != 0
}

/// Every cell is filled.
pub open spec fn full(g: Seq<Seq<u8>>) -> bool {
    forall|r: int, c: int| on_board(r, c) ==> #[trigger] g[r][c] != 0
}

/// The number of empty cells among the first `n` cells of `row`.
pub open spec fn row_empties(row: Seq<u8>, n: int) -> nat
    decreases n,
{
    if n <= 0 {
        0
    } else {
        row_empties(row, n - 1) + if row[n - 1] == 0 { 1nat } else { 0nat }
    }
}

/// The number of empty cells in the first `n` rows of `g`.
pub open spec fn rows_empties(g: Seq<Seq<u8>>, n: int) -> nat
    decreases n,
{
    if n <= 0 {
        0
    } else {
        rows_empties(g, n - 1) + row_empties(g[n - 1], 9)
    }
}

/// The number of empty cells of the board.
pub open spec fn empties(g: Seq<Seq<u8>>) -> nat {
    rows_empties(g, 9)
}

} // verus!
