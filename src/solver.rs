use vstd::prelude::*;
use crate::board::{lemma_view_well_formed, Sudoku};
use crate::laws::lemma_clashing_clues_unsolvable;
use crate::rules::{
    agree_before, before, can_place, clue_clear, clues_consistent, empties, excluded, first_completion, first_empty, fits, full,
    is_completion, keeps_clue, lex_less, on_board, peers, put, row_empties, rows_empties,
    shaped, shares_unit, solvable, solved_grid, well_formed,
};

verus! {

/// Filling an empty cell of a row lowers its count of empty cells by one.
proof fn lemma_row_fill(row: Seq<u8>, n: int, i: int, v: u8)
    requires
        0 <= i < row.len(),
        0 <= n <= row.len(),
        row[i] == 0,
        v != 0,
    ensures
        i < n ==> row_empties(row.update(i, v), n) + 1 == row_empties(row, n),
        i >= n ==> row_empties(row.update(i, v), n) == row_empties(row, n),
    decreases n,
{
    if n > 0 {
        lemma_row_fill(row, n - 1, i, v);
    }
}

/// Filling an empty cell of the board lowers its count of empty cells by one.
proof fn lemma_fill(g: Seq<Seq<u8>>, n: int, r: int, c: int, v: u8)
    requires
        shaped(g),
        on_board(r, c),
        0 <= n <= 9,
        g[r][c] == 0,
        v != 0,
    ensures
        r < n ==> rows_empties(put(g, r, c, v), n) + 1 == rows_empties(g, n),
        r >= n ==> rows_empties(put(g, r, c, v), n) == rows_empties(g, n),
    decreases n,
{
    if n > 0 {
        lemma_fill(g, n - 1, r, c, v);
        lemma_row_fill(g[r], 9, c, v);
    }
}

/// A full board whose clues agree is its own first completion.
proof fn lemma_full(g: Seq<Seq<u8>>)
    requires
        well_formed(g),
        full(g),
        clues_consistent(g),
    ensures
        first_completion(g, g),
{
    assert forall|r: int, c: int| on_board(r, c) implies keeps_clue(g, g, r, c) && fits(g, r, c) by {
        assert(clue_clear(g, r, c));
        assert(g[r][c] == g[r][c]);
    }
    assert(is_completion(g, g));
    assert forall|t: Seq<Seq<u8>>| #[trigger] is_completion(g, t) implies t == g || lex_less(g, t) by {
        assert forall|r: int| 0 <= r < 9 implies t[r] =~= g[r] by {
            assert forall|c: int| 0 <= c < 9 implies t[r][c] == g[r][c] by {
                assert(g[r][c] != 0);
                assert(keeps_clue(g, t, r, c));
            }
        }
        assert(t =~= g);
    }
}

/// Two clues of a board that agree, and a digit written at an empty cell
/// where it clashes with nothing, leave the clues in agreement.
proof fn lemma_place_consistent(g: Seq<Seq<u8>>, r: int, c: int, v: u8)
    requires
        shaped(g),
        on_board(r, c),
        g[r][c] == 0,
        1 <= v <= 9,
        can_place(g, r, c, v),
        clues_consistent(g),
    ensures
        clues_consistent(put(g, r, c, v)),
{
    let h = put(g, r, c, v);
    assert forall|r1: int, c1: int| on_board(r1, c1) implies #[trigger] clue_clear(h, r1, c1) by {
        if h[r1][c1] != 0 {
            assert forall|r2: int, c2: int|
                on_board(r2, c2) && peers(r1, c1, r2, c2) implies #[trigger] h[r2][c2] != h[r1][c1] by {
                if r1 == r && c1 == c {
                    assert(g[r2][c2] == h[r2][c2]);
                } else if r2 == r && c2 == c {
                    assert(shares_unit(r, c, r1, c1));
                    assert(g[r1][c1] == h[r1][c1]);
                } else {
                    assert(clue_clear(g, r1, c1));
                    assert(g[r2][c2] == h[r2][c2]);
                    assert(g[r1][c1] == h[r1][c1]);
                }
            }
        }
    }
}

/// A digit that clashes with a clue of its row, column or box is in no completion.
proof fn lemma_blocked(g: Seq<Seq<u8>>, r: int, c: int, v: u8)
    requires
        shaped(g),
        on_board(r, c),
        g[r][c] == 0,
        1 <= v <= 9,
        !can_place(g, r, c, v),
    ensures
        excluded(g, r, c, v as int),
{
    let (r2, c2) = choose|r2: int, c2: int|
        on_board(r2, c2) && shares_unit(r, c, r2, c2) && #[trigger] g[r2][c2] == v;
    assert forall|s: Seq<Seq<u8>>| #[trigger] is_completion(g, s) implies s[r][c] != v as int by {
        assert(keeps_clue(g, s, r2, c2));
        assert(fits(s, r, c));
        assert(peers(r, c, r2, c2));
    }
}

/// A completion of `g` that holds `v` at the empty cell `(r, c)` completes
/// `g` with `v` written there.
proof fn lemma_narrow(g: Seq<Seq<u8>>, r: int, c: int, v: u8, s: Seq<Seq<u8>>)
    requires
        shaped(g),
        on_board(r, c),
        g[r][c] == 0,
        is_completion(g, s),
        s[r][c] == v,
    ensures
        is_completion(put(g, r, c, v), s),
{
    let h = put(g, r, c, v);
    assert forall|r2: int, c2: int| on_board(r2, c2) implies keeps_clue(h, s, r2, c2) && fits(
        s,
        r2,
        c2,
    ) by {
        assert(keeps_clue(g, s, r2, c2));
        assert(s[r2][c2] == s[r2][c2]);
    }
}

/// A completion of `g` with `v` written at the empty cell `(r, c)` completes
/// `g` itself.
proof fn lemma_widen(g: Seq<Seq<u8>>, r: int, c: int, v: u8, s: Seq<Seq<u8>>)
    requires
        shaped(g),
        on_board(r, c),
        g[r][c] == 0,
        is_completion(put(g, r, c, v), s),
    ensures
        is_completion(g, s),
{
    let h = put(g, r, c, v);
    assert forall|r2: int, c2: int| on_board(r2, c2) implies keeps_clue(g, s, r2, c2) && fits(
        s,
        r2,
        c2,
    ) by {
        assert(keeps_clue(h, s, r2, c2));
        assert(s[r2][c2] == s[r2][c2]);
    }
}

/// When every digit below `v` is excluded at the first empty cell, the first
/// completion of the board with `v` written there is the board's first completion.
proof fn lemma_first(g: Seq<Seq<u8>>, r: int, c: int, v: u8, f: Seq<Seq<u8>>)
    requires
        shaped(g),
        first_empty(g, r, c),
        1 <= v <= 9,
        forall|u: int| 1 <= u < v ==> #[trigger] excluded(g, r, c, u),
        first_completion(put(g, r, c, v), f),
    ensures
        first_completion(g, f),
{
    let h = put(g, r, c, v);
    lemma_widen(g, r, c, v, f);
    assert(keeps_clue(h, f, r, c));
    assert forall|t: Seq<Seq<u8>>| #[trigger] is_completion(g, t) implies t == f || lex_less(f, t) by {
        assert(fits(t, r, c));
        let u = t[r][c];
        if (u as int) < (v as int) {
            assert(excluded(g, r, c, u as int));
        } else if u == v {
            lemma_narrow(g, r, c, v, t);
        } else {
            assert forall|r2: int, c2: int|
                on_board(r2, c2) && before(r2, c2, r, c) implies #[trigger] f[r2][c2] == t[r2][c2] by {
                assert(g[r2][c2] != 0);
                assert(keeps_clue(g, t, r2, c2));
                assert(keeps_clue(h, f, r2, c2));
            }
            assert(agree_before(f, t, r, c));
        }
    }
}

/// A completion of `g` that holds `v` at the empty cell `(r, c)` is ruled out
/// when `g` with `v` written there has none.
proof fn lemma_dead_end(g: Seq<Seq<u8>>, r: int, c: int, v: u8)
    requires
        shaped(g),
        on_board(r, c),
        g[r][c] == 0,
        !solvable(put(g, r, c, v)),
    ensures
        excluded(g, r, c, v as int),
{
    assert forall|s: Seq<Seq<u8>>| #[trigger] is_completion(g, s) implies s[r][c] != v as int by {
        if s[r][c] == v {
            lemma_narrow(g, r, c, v, s);
        }
    }
}

impl Sudoku {
    /// The first empty cell in row-major order, or `None` when the board is full.
    fn find_empty(&self) -> (res: Option<(usize, usize)>)
        ensures
            res matches Some((r, c)) ==> first_empty(self@, r as int, c as int),
            res is None ==> full(self@),
    {
        let mut row: usize = 0;
        while row < 9
            invariant
                row <= 9,
                forall|r2: int, c2: int|
                    on_board(r2, c2) && r2 < row ==> #[trigger] self@[r2][c2] != 0,
            decreases 9 - row,
        {
            let mut col: usize = 0;
            while col < 9
                invariant
                    row < 9,
                    col <= 9,
                    forall|r2: int, c2: int|
                        on_board(r2, c2) && before(r2, c2, row as int, col as int)
                            ==> #[trigger] self@[r2][c2] != 0,
                decreases 9 - col,
            {
                if self.get(row, col) == 0 {
                    return Some((row, col));
                }
                col += 1;
            }
            row += 1;
        }
        None
    }

    /// Whether `value` clashes with no cell of the row, the column and the box of
    /// `row`, `col`.
    fn placement_check(&self, row: usize, col: usize, value: u8) -> (ok: bool)
        requires
            on_board(row as int, col as int),
        ensures
            ok == can_place(self@, row as int, col as int, value),
    {
        let mut i: usize = 0;
        while i < 9
            invariant
                on_board(row as int, col as int),
                i <= 9,
                forall|c2: int| 0 <= c2 < i ==> #[trigger] self@[row as int][c2] != value,
            decreases 9 - i,
        {
            if self.get(row, i) == value {
                return false;
            }
            i += 1;
        }
        let mut i: usize = 0;
        while i < 9
            invariant
                on_board(row as int, col as int),
                i <= 9,
                forall|r2: int| 0 <= r2 < i ==> #[trigger] self@[r2][col as int] != value,
            decreases 9 - i,
        {
            if self.get(i, col) == value {
                return false;
            }
            i += 1;
        }
        let section_row: usize = row / 3 * 3;
        let section_col: usize = col / 3 * 3;
        let mut i: usize = 0;
        while i < 3
            invariant
                on_board(row as int, col as int),
                section_row == row / 3 * 3,
                section_col == col / 3 * 3,
                i <= 3,
                forall|a: int, b: int|
                    0 <= a < i && 0 <= b < 3 ==> #[trigger] self@[section_row + a][section_col + b]
                        != value,
            decreases 3 - i,
        {
            let mut j: usize = 0;
            while j < 3
                invariant
                    on_board(row as int, col as int),
                    section_row == row / 3 * 3,
                    section_col == col / 3 * 3,
                    i < 3,
                    j <= 3,
                    forall|a: int, b: int|
                        (0 <= a < i && 0 <= b < 3) || (a == i && 0 <= b < j)
                            ==> #[trigger] self@[section_row + a][section_col + b] != value,
                decreases 3 - j,
            {
                if self.get(section_row + i, section_col + j) == value {
                    return false;
                }
                j += 1;
            }
            i += 1;
        }
        assert forall|r2: int, c2: int|
            on_board(r2, c2) && shares_unit(row as int, col as int, r2, c2) implies #[trigger] self@[r2][c2]
                != value by {
            if r2 != row && c2 != col {
                let a = r2 - section_row;
                let b = c2 - section_col;
                assert(self@[section_row + a][section_col + b] != value);
            }
        }
        true
    }

    /// Whether no peer of the cell at `row`, `col` holds its clue.
    fn clue_is_clear(&self, row: usize, col: usize) -> (ok: bool)
        requires
            on_board(row as int, col as int),
        ensures
            ok == clue_clear(self@, row as int, col as int),
    {
        let v = self.get(row, col);
        if v == 0 {
            return true;
        }
        let mut r2: usize = 0;
        while r2 < 9
            invariant
                on_board(row as int, col as int),
                v == self@[row as int][col as int],
                v != 0,
                r2 <= 9,
                forall|a: int, b: int|
                    on_board(a, b) && a < r2 && peers(row as int, col as int, a, b)
                        ==> #[trigger] self@[a][b] != v,
            decreases 9 - r2,
        {
            let mut c2: usize = 0;
            while c2 < 9
                invariant
                    on_board(row as int, col as int),
                    v == self@[row as int][col as int],
                    v != 0,
                    r2 < 9,
                    c2 <= 9,
                    forall|a: int, b: int|
                        on_board(a, b) && (a < r2 || (a == r2 && b < c2)) && peers(
                            row as int,
                            col as int,
                            a,
                            b,
                        ) ==> #[trigger] self@[a][b] != v,
                decreases 9 - c2,
            {
                let peer = (r2 == row || c2 == col || (r2 / 3 == row / 3 && c2 / 3 == col / 3))
                    && !(r2 == row && c2 == col);
                if peer && self.get(r2, c2) == v {
                    assert(peers(row as int, col as int, r2 as int, c2 as int));
                    assert(self@[r2 as int][c2 as int] == self@[row as int][col as int]);
                    return false;
                }
                c2 += 1;
            }
            r2 += 1;
        }
        true
    }

    /// Whether the clues of the board agree: no two peers hold the same digit.
    fn clues_agree(&self) -> (ok: bool)
        ensures
            ok == clues_consistent(self@),
    {
        let mut r: usize = 0;
        while r < 9
            invariant
                r <= 9,
                forall|a: int, b: int| on_board(a, b) && a < r ==> #[trigger] clue_clear(self@, a, b),
            decreases 9 - r,
        {
            let mut c: usize = 0;
            while c < 9
                invariant
                    r < 9,
                    c <= 9,
                    forall|a: int, b: int|
                        on_board(a, b) && (a < r || (a == r && b < c)) ==> #[trigger] clue_clear(
                            self@,
                            a,
                            b,
                        ),
                decreases 9 - c,
            {
                if !self.clue_is_clear(r, c) {
                    return false;
                }
                c += 1;
            }
            r += 1;
        }
        true
    }

    /// Solves the board. Clues that clash with each other make it fail at
    /// once. Otherwise the empty cells are filled by depth-first search: the
    /// first empty cell in row-major order takes each digit from 1 to 9 that
    /// clashes with nothing, and the search goes on from there; a digit whose
    /// search fails is taken back. On success the board holds its first
    /// completion in row-major order, a solved Sudoku that keeps every clue;
    /// on failure it is left as it was, and no such completion exists.
    pub fn solve(&mut self) -> (solved: bool)
        ensures
            solved == solvable(old(self)@),
            solved ==> first_completion(old(self)@, final(self)@),
            solved ==> solved_grid(final(self)@),
            !solved ==> final(self)@ == old(self)@,
            well_formed(final(self)@),
    {
        proof {
            use_type_invariant(&*self);
            lemma_view_well_formed(self);
        }
        if !self.clues_agree() {
            proof {
                let (r1, c1) = choose|r1: int, c1: int| on_board(r1, c1) && !clue_clear(self@, r1, c1);
                let (r2, c2) = choose|r2: int, c2: int|
                    on_board(r2, c2) && peers(r1, c1, r2, c2) && self@[r2][c2] == self@[r1][c1];
                lemma_clashing_clues_unsolvable(self@, r1, c1, r2, c2);
            }
            return false;
        }
        let solved = self.search();
        proof {
            if solved {
                assert forall|r1: int, c1: int, r2: int, c2: int|
                    on_board(r1, c1) && on_board(r2, c2) && peers(r1, c1, r2, c2) implies #[trigger] self@[r1][c1]
                    != #[trigger] self@[r2][c2] by {
                    assert(fits(self@, r1, c1));
                }
                assert forall|r: int, c: int| on_board(r, c) implies 1 <= #[trigger] self@[r][c] <= 9 by {
                    assert(fits(self@, r, c));
                }
            }
        }
        solved
    }

    /// The search behind `solve`, on a board whose clues agree.
    fn search(&mut self) -> (solved: bool)
        requires
            clues_consistent(old(self)@),
        ensures
            solved == solvable(old(self)@),
            solved ==> first_completion(old(self)@, final(self)@),
            !solved ==> final(self)@ == old(self)@,
            well_formed(final(self)@),
        decreases empties(old(self)@),
    {
        proof {
            use_type_invariant(&*self);
            lemma_view_well_formed(self);
        }
        match self.find_empty() {
            None => {
                proof {
                    lemma_full(self@);
                }
                true
            },
            Some((row, col)) => {
                let ghost g = self@;
                let mut value: u8 = 1;
                while value <= 9
                    invariant
                        1 <= value <= 10,
                        self@ == g,
                        old(self)@ == g,
                        shaped(g),
                        well_formed(g),
                        clues_consistent(g),
                        first_empty(g, row as int, col as int),
                        forall|u: int|
                            1 <= u < value ==> #[trigger] excluded(g, row as int, col as int, u),
                    decreases 10 - value,
                {
                    if self.placement_check(row, col, value) {
                        self.set(row, col, value);
                        proof {
                            lemma_place_consistent(g, row as int, col as int, value);
                            lemma_fill(g, 9, row as int, col as int, value);
                            assert(empties(self@) < empties(g));
                        }
                        if self.search() {
                            proof {
                                lemma_first(g, row as int, col as int, value, self@);
                                assert(is_completion(g, self@));
                                use_type_invariant(&*self);
                                lemma_view_well_formed(self);
                            }
                            return true;
                        }
                        proof {
                            lemma_dead_end(g, row as int, col as int, value);
                        }
                        self.set(row, col, 0);
                        proof {
                            use_type_invariant(&*self);
                            lemma_view_well_formed(self);
                            assert(self@ =~~= g);
                        }
                    } else {
                        proof {
                            lemma_blocked(g, row as int, col as int, value);
                        }
                    }
                    value += 1;
                }
                proof {
                    use_type_invariant(&*self);
                    lemma_view_well_formed(self);
                    if solvable(g) {
                        let s = choose|s: Seq<Seq<u8>>| is_completion(g, s);
                        assert(fits(s, row as int, col as int));
                        assert(excluded(g, row as int, col as int, s[row as int][col as int] as int));
                    }
                }
                false
            },
        }
    }
}

} // verus!
