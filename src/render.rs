use vstd::prelude::*;
use crate::board::{lemma_view_well_formed, Sudoku};
use crate::rules::well_formed;

verus! {

/// The rule printed above each band of three rows and below the board.
pub open spec fn separator() -> Seq<char> {
    "+-------+-------+-------+\n"@
}

/// A cell as printed: its digit, or a blank when it is empty, then a space.
pub open spec fn cell_text(v: u8) -> Seq<char> {
    if v == 1 {
        "1 "@
    } else if v == 2 {
        "2 "@
    } else if v == 3 {
        "3 "@
    } else if v == 4 {
        "4 "@
    } else if v == 5 {
        "5 "@
    } else if v == 6 {
        "6 "@
    } else if v == 7 {
        "7 "@
    } else if v == 8 {
        "8 "@
    } else if v == 9 {
        "9 "@
    } else {
        "  "@
    }
}

/// The first `n` cells of a row as printed, with `| ` before each box.
pub open spec fn cells_text(row: Seq<u8>, n: int) -> Seq<char>
    decreases n,
{
    if n <= 0 {
        Seq::empty()
    } else {
        cells_text(row, n - 1) + (if (n - 1) % 3 == 0 {
            "| "@
        } else {
            Seq::empty()
        }) + cell_text(row[n - 1])
    }
}

/// A row as printed: its nine cells, then `|` and a line break.
pub open spec fn row_text(row: Seq<u8>) -> Seq<char> {
    cells_text(row, 9) + "|\n"@
}

/// The rule that stands above row `i`: one above rows 0, 3 and 6.
pub open spec fn rule_above(i: int) -> Seq<char> {
    if i % 3 == 0 {
        separator()
    } else {
        Seq::empty()
    }
}

/// The first `n` rows of the board as printed, each band after its rule.
pub open spec fn rows_text(g: Seq<Seq<u8>>, n: int) -> Seq<char>
    decreases n,
{
    if n <= 0 {
        Seq::empty()
    } else {
        rows_text(g, n - 1) + rule_above(n - 1) + row_text(g[n - 1])
    }
}

/// The whole board as printed: the nine rows, then a closing rule.
pub open spec fn board_text(g: Seq<Seq<u8>>) -> Seq<char> {
    rows_text(g, 9) + separator()
}

/// The printed form of one cell.
fn cell_str(v: u8) -> (s: &'static str)
    requires
        v <= 9,
    ensures
        s@ == cell_text(v),
{
    match v {
        1 => "1 ",
        2 => "2 ",
        3 => "3 ",
        4 => "4 ",
        5 => "5 ",
        6 => "6 ",
        7 => "7 ",
        8 => "8 ",
        9 => "9 ",
        _ => "  ",
    }
}

impl Sudoku {
    /// The board drawn as text, three boxes to a line, empty cells blank.
    pub fn render(&self) -> (text: String)
        ensures
            text@ == board_text(self@),
    {
        proof {
            use_type_invariant(&*self);
            lemma_view_well_formed(self);
        }
        let mut out = String::new();
        let mut i: usize = 0;
        while i < 9
            invariant
                i <= 9,
                well_formed(self@),
                out@ == rows_text(self@, i as int),
            decreases 9 - i,
        {
            if i % 3 == 0 {
                out.append("+-------+-------+-------+\n");
            }
            assert(out@ =~= rows_text(self@, i as int) + rule_above(i as int));
            let mut j: usize = 0;
            while j < 9
                invariant
                    i < 9,
                    j <= 9,
                    well_formed(self@),
                    out@ == rows_text(self@, i as int) + rule_above(i as int) + cells_text(
                        self@[i as int],
                        j as int,
                    ),
                decreases 9 - j,
            {
                if j % 3 == 0 {
                    out.append("| ");
                }
                let v = self.get(i, j);
                out.append(cell_str(v));
                assert(out@ =~= rows_text(self@, i as int) + rule_above(i as int) + cells_text(
                    self@[i as int],
                    j + 1,
                ));
                j += 1;
            }
            out.append("|\n");
            assert(out@ =~= rows_text(self@, i + 1));
            i += 1;
        }
        out.append("+-------+-------+-------+\n");
        out
    }
}

} // verus!
