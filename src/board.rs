use vstd::prelude::*;
use crate::rules::{empty_grid, on_board, put, shaped, well_formed};

verus! {

/// A 9x9 Sudoku board: 0 marks an empty cell, 1 to 9 a filled one.
pub struct Sudoku {
    pub(crate) square: [[u8; 9]; 9],
}

impl View for Sudoku {
    type V = Seq<Seq<u8>>;

    closed spec fn view(&self) -> Seq<Seq<u8>> {
        Seq::new(9, |r: int| self.square@[r]@)
    }
}

/// Every board has nine rows of nine cells, each holding a value from 0 to 9.
pub(crate) proof fn lemma_view_well_formed(s: &Sudoku)
    requires
        s.cells_in_range(),
    ensures
        shaped(s@),
        well_formed(s@),
{
    assert forall|r: int| 0 <= r < 9 implies (#[trigger] s@[r]).len() == 9 by {
        assert(s@[r] == s.square@[r]@);
    }
}

impl Sudoku {
    /// No cell holds more than 9.
    #[verifier::type_invariant]
    pub(crate) closed spec fn cells_in_range(self) -> bool {
        forall|r: int, c: int| on_board(r, c) ==> #[trigger] self.square@[r]@[c] <= 9
    }

    /// A board whose 81 cells are all empty.
    pub fn new() -> (s: Self)
        ensures
            s@ == empty_grid(),
            well_formed(s@),
    {
        let s = Sudoku { square: [[0u8; 9]; 9] };
        proof {
            use_type_invariant(&s);
            lemma_view_well_formed(&s);
            assert(s@ =~~= empty_grid());
        }
        s
    }

    /// The value of the cell at `row`, `col`.
    pub fn get(&self, row: usize, col: usize) -> (v: u8)
        requires
            on_board(row as int, col as int),
        ensures
            v == self@[row as int][col as int],
            v <= 9,
    {
        proof {
            use_type_invariant(self);
            lemma_view_well_formed(self);
        }
        self.square[row][col]
    }

    /// Writes `value` into the cell at `row`, `col`; every other cell keeps its value.
    pub fn set(&mut self, row: usize, col: usize, value: u8)
        requires
            on_board(row as int, col as int),
            value <= 9,
        ensures
            final(self)@ == put(old(self)@, row as int, col as int, value),
            well_formed(final(self)@),
    {
        proof {
            use_type_invariant(&*self);
        }
        self.square[row][col] = value;
        proof {
            lemma_view_well_formed(old(self));
            use_type_invariant(&*self);
            lemma_view_well_formed(self);
            assert(self@ =~~= put(old(self)@, row as int, col as int, value));
        }
    }
}

} // verus!
