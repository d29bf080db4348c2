use vstd::prelude::*;
use crate::board::{lemma_view_well_formed, Sudoku};
use crate::rules::{before, on_board, well_formed};

verus! {

/// Why a puzzle text was refused.
#[derive(Debug, Clone, Copy, PartialEq, Eq)]
pub enum LoadError {
    /// The token at this line and position in the line is not a number from 0 to 9.
    InvalidNumber { line: usize, index: usize },
}

/// A byte that separates the numbers of one line: space, tab, carriage
/// return, vertical tab or form feed.
pub open spec fn is_blank(b: u8) -> bool {
    b == 32 || b == 9 || b == 13 || b == 11 || b == 12
}

/// The line break that ends a row.
pub open spec fn is_newline(b: u8) -> bool {
    b == 10
}

/// A decimal digit.
pub open spec fn is_digit(b: u8) -> bool {
    48 <= b <= 57
}

/// The lines of `t`: the pieces between its line breaks.
pub open spec fn lines(t: Seq<u8>) -> Seq<Seq<u8>>
    decreases t.len(),
{
    if t.len() == 0 {
        seq![Seq::empty()]
    } else {
        let ls = lines(t.drop_last());
        if is_newline(t.last()) {
            ls.push(Seq::empty())
        } else {
            ls.update(ls.len() - 1, ls.last().push(t.last()))
        }
    }
}

/// The tokens of a line: its longest runs of bytes that are not blanks.
pub open spec fn tokens(l: Seq<u8>) -> Seq<Seq<u8>>
    decreases l.len(),
{
    if l.len() == 0 {
        Seq::empty()
    } else {
        let ws = tokens(l.drop_last());
        if is_blank(l.last()) {
            ws
        } else if l.len() > 1 && !is_blank(l[l.len() - 2]) {
            ws.update(ws.len() - 1, ws.last().push(l.last()))
        } else {
            ws.push(seq![l.last()])
        }
    }
}

/// The decimal value of a run of digits.
pub open spec fn number(w: Seq<u8>) -> int
    decreases w.len(),
{
    if w.len() == 0 {
        0
    } else {
        number(w.drop_last()) * 10 + (w.last() - 48)
    }
}

/// A token that stands for a cell: a run of digits whose value is at most 9.
pub open spec fn valid_token(w: Seq<u8>) -> bool {
    &&& w.len() > 0
    &&& forall|i: int| 0 <= i < w.len() ==> is_digit(#[trigger] w[i])
    &&& number(w) <= 9
}

/// The cell that token `j` of line `l` gives: its value, or 0 when the line
/// has no such token.
pub open spec fn token_cell(l: Seq<u8>, j: int) -> u8 {
    if 0 <= j < tokens(l).len() && valid_token(tokens(l)[j]) {
        number(tokens(l)[j]) as u8
    } else {
        0
    }
}

/// Token `j` of line `i` of `t` lies on the board and is not a number from 0 to 9.
pub open spec fn bad_token(t: Seq<u8>, i: int, j: int) -> bool {
    &&& on_board(i, j)
    &&& i < lines(t).len()
    &&& j < tokens(lines(t)[i]).len()
    &&& !valid_token(tokens(lines(t)[i])[j])
}

/// The first bad token of `t`, in reading order, is token `j` of line `i`.
pub open spec fn first_bad(t: Seq<u8>, i: int, j: int) -> bool {
    &&& bad_token(t, i, j)
    &&& forall|i2: int, j2: int| before(i2, j2, i, j) ==> !#[trigger] bad_token(t, i2, j2)
}

/// The board that `t` describes: cell `(i, j)` is token `j` of line `i`, and
/// cells with no token are empty.
pub open spec fn text_grid(t: Seq<u8>) -> Seq<Seq<u8>> {
    Seq::new(
        9,
        |i: int| Seq::new(9, |j: int| if i < lines(t).len() { token_cell(lines(t)[i], j) } else { 0 }),
    )
}

/// How many tokens of line `l` have ended, when a token is still open or not.
spec fn ended(l: Seq<u8>, open: bool) -> int {
    tokens(l).len() - if open { 1int } else { 0int }
}

/// The cell `(i, j)` as read so far, with `k` tokens of the last line ended.
spec fn read_cell(ls: Seq<Seq<u8>>, k: int, i: int, j: int) -> u8 {
    if i < ls.len() - 1 || (i == ls.len() - 1 && j < k) {
        token_cell(ls[i], j)
    } else {
        0
    }
}

/// The open token `w` is tracked by `bad` and by `value`, its value held at 10.
spec fn open_token_read(w: Seq<u8>, bad: bool, value: int) -> bool {
    &&& w.len() > 0
    &&& bad == !(forall|i: int| 0 <= i < w.len() ==> is_digit(#[trigger] w[i]))
    &&& !bad ==> number(w) >= 0 && value == if number(w) > 9 {
        10
    } else {
        number(w)
    }
}

/// `err` is the first bad token that has ended, if there is one.
spec fn err_read(ls: Seq<Seq<u8>>, k: int, err: Option<(usize, usize)>) -> bool {
    match err {
        None => forall|i: int, j: int| !#[trigger] read_bad(ls, k, i, j),
        Some((a, b)) => read_bad(ls, k, a as int, b as int) && forall|i: int, j: int|
            before(i, j, a as int, b as int) ==> !#[trigger] read_bad(ls, k, i, j),
    }
}

/// Token `(i, j)` has ended, lies on the board, and is bad.
spec fn read_bad(ls: Seq<Seq<u8>>, k: int, i: int, j: int) -> bool {
    &&& on_board(i, j)
    &&& (i < ls.len() - 1 && j < tokens(ls[i]).len()) || (i == ls.len() - 1 && 0 <= j < k)
    &&& !valid_token(tokens(ls[i])[j])
}

proof fn lemma_lines_nonempty(t: Seq<u8>)
    ensures
        lines(t).len() >= 1,
    decreases t.len(),
{
    if t.len() > 0 {
        lemma_lines_nonempty(t.drop_last());
    }
}

proof fn lemma_tokens_last(l: Seq<u8>)
    requires
        l.len() > 0,
        !is_blank(l.last()),
    ensures
        tokens(l).len() > 0,
        tokens(l).last().len() > 0,
        tokens(l).last().last() == l.last(),
    decreases l.len(),
{
    if l.len() > 1 && !is_blank(l[l.len() - 2]) {
        lemma_tokens_last(l.drop_last());
    }
}

impl Sudoku {
    /// Reads a puzzle: each line a row, its tokens the numbers from 0 (empty)
    /// to 9 of its cells, apart by blanks. Lines and tokens past the ninth are
    /// ignored, and cells that no token reaches stay empty; a token on the
    /// board that is not a number from 0 to 9 is refused with its line and
    /// position, the first such in reading order.
    pub fn from_text(text: &[u8]) -> (res: Result<Sudoku, LoadError>)
        ensures
            res is Err <==> exists|i: int, j: int| bad_token(text@, i, j),
            res matches Ok(b) ==> b@ == text_grid(text@) && well_formed(b@),
            res matches Err(LoadError::InvalidNumber { line, index }) ==> first_bad(
                text@,
                line as int,
                index as int,
            ),
    {
        let mut board = Sudoku::new();
        let mut line: usize = 0;
        let mut index: usize = 0;
        let mut in_token = false;
        let mut value: u8 = 0;
        let mut bad = false;
        let mut err: Option<(usize, usize)> = None;
        let mut n: usize = 0;
        proof {
            use_type_invariant(&board);
            lemma_view_well_formed(&board);
            assert(text@.subrange(0, 0) =~= Seq::<u8>::empty());
        }
        while n < text.len()
            invariant
                n <= text.len(),
                line <= n,
                index <= 9,
                value <= 10,
                well_formed(board@),
                lines(text@.subrange(0, n as int)).len() >= 1,
                line == lines(text@.subrange(0, n as int)).len() - 1,
                in_token == (lines(text@.subrange(0, n as int)).last().len() > 0 && !is_blank(
                    lines(text@.subrange(0, n as int)).last().last(),
                )),
                index == if ended(lines(text@.subrange(0, n as int)).last(), in_token) < 9 {
                    ended(lines(text@.subrange(0, n as int)).last(), in_token)
                } else {
                    9
                },
                in_token ==> open_token_read(
                    tokens(lines(text@.subrange(0, n as int)).last()).last(),
                    bad,
                    value as int,
                ),
                forall|i: int, j: int|
                    on_board(i, j) ==> #[trigger] board@[i][j] == read_cell(
                        lines(text@.subrange(0, n as int)),
                        ended(lines(text@.subrange(0, n as int)).last(), in_token),
                        i,
                        j,
                    ),
                err_read(
                    lines(text@.subrange(0, n as int)),
                    ended(lines(text@.subrange(0, n as int)).last(), in_token),
                    err,
                ),
            decreases text.len() - n,
        {
            let b = text[n];
            let ghost p = text@.subrange(0, n as int);
            let ghost q = text@.subrange(0, n + 1);
            let ghost ls = lines(p);
            let ghost cur = ls.last();
            let ghost w = tokens(cur);
            let ghost k = ended(cur, in_token);
            let ghost was_open = in_token;
            let ghost old_bad = bad;
            proof {
                assert(q =~= p.push(b));
                assert(q.drop_last() =~= p);
                assert(cur.push(b).drop_last() =~= cur);
                lemma_lines_nonempty(p);
                if in_token {
                    lemma_tokens_last(cur);
                }
            }
            let blank = b == 32 || b == 9 || b == 13 || b == 11 || b == 12;
            if b == 10 || blank {
                if in_token {
                    if line < 9 && index < 9 {
                        if !bad && value <= 9 {
                            board.set(line, index, value);
                        } else if err.is_none() {
                            err = Some((line, index));
                        }
                    }
                    if index < 9 {
                        index = index + 1;
                    }
                    in_token = false;
                    proof {
                        assert(valid_token(w[k]) == (!bad && value <= 9));
                        assert forall|i: int, j: int| on_board(i, j) implies #[trigger] board@[i][j]
                            == read_cell(ls, w.len() as int, i, j) by {
                            if i == ls.len() - 1 && j == k {
                            }
                        }
                        assert forall|i: int, j: int|
                            #[trigger] read_bad(ls, w.len() as int, i, j) implies read_bad(ls, k, i, j)
                            || (i == ls.len() - 1 && j == k) by {
                        }
                    }
                }
                proof {
                    let k1 = w.len() as int;
                    if b == 10 {
                        assert(lines(q) == ls.push(Seq::<u8>::empty()));
                        let ls2 = lines(q);
                        assert forall|i: int, j: int| on_board(i, j) implies #[trigger] board@[i][j]
                            == read_cell(ls2, 0, i, j) by {
                            if i < ls.len() {
                                assert(ls2[i] == ls[i]);
                            }
                        }
                        assert forall|i: int, j: int| #[trigger] read_bad(ls2, 0, i, j) implies read_bad(
                            ls,
                            k1,
                            i,
                            j,
                        ) by {
                            assert(ls2[i] == ls[i]);
                        }
                        assert forall|i: int, j: int| read_bad(ls, k1, i, j) implies #[trigger] read_bad(
                            ls2,
                            0,
                            i,
                            j,
                        ) by {
                            assert(ls2[i] == ls[i]);
                        }
                    } else {
                        let cur2 = cur.push(b);
                        assert(lines(q) == ls.update(ls.len() - 1, cur2));
                        assert(tokens(cur2) == w);
                        let ls2 = lines(q);
                        assert forall|i: int, j: int| on_board(i, j) implies #[trigger] board@[i][j]
                            == read_cell(ls2, k1, i, j) by {
                            if i < ls.len() - 1 {
                                assert(ls2[i] == ls[i]);
                            }
                        }
                        assert forall|i: int, j: int| #[trigger] read_bad(ls2, k1, i, j) == read_bad(
                            ls,
                            k1,
                            i,
                            j,
                        ) by {
                            if 0 <= i < ls.len() - 1 {
                                assert(ls2[i] == ls[i]);
                            }
                        }
                    }
                }
                if b == 10 {
                    line = line + 1;
                    index = 0;
                }
            } else {
                if 48 <= b && b <= 57 {
                    let v: u8 = if in_token && value > 0 { 10 } else { b - 48 };
                    value = v;
                    if !in_token {
                        bad = false;
                    }
                } else {
                    bad = true;
                }
                in_token = true;
                proof {
                    let cur2 = cur.push(b);
                    assert(lines(q) == ls.update(ls.len() - 1, cur2));
                    let ls2 = lines(q);
                    let w2 = tokens(cur2);
                    if was_open {
                        assert(w2 == w.update(w.len() - 1, w.last().push(b)));
                        assert(w.last().push(b).drop_last() =~= w.last());
                    } else {
                        assert(w2 == w.push(seq![b]));
                        assert(seq![b].drop_last() =~= Seq::<u8>::empty());
                    }
                    assert forall|j: int| 0 <= j < k implies w2[j] == w[j] by {}
                    let t2 = w2.last();
                    if was_open {
                        let t1 = w.last();
                        assert(t2 == t1.push(b));
                        assert(number(t2) == number(t1) * 10 + (b - 48));
                        if old_bad {
                            let i0 = choose|i: int| 0 <= i < t1.len() && !is_digit(#[trigger] t1[i]);
                            assert(t2[i0] == t1[i0]);
                        } else if is_digit(b) {
                            assert forall|i: int| 0 <= i < t2.len() implies is_digit(#[trigger] t2[i]) by {
                                if i < t1.len() {
                                    assert(t2[i] == t1[i]);
                                }
                            }
                        }
                    } else {
                        assert(t2 == seq![b]);
                        assert(number(t2) == number(Seq::<u8>::empty()) * 10 + (b - 48));
                    }
                    assert(t2[t2.len() - 1] == b);
                    assert(open_token_read(t2, bad, value as int));
                    assert forall|i: int, j: int| on_board(i, j) implies #[trigger] board@[i][j]
                        == read_cell(ls2, k, i, j) by {
                        if i < ls.len() - 1 {
                            assert(ls2[i] == ls[i]);
                        } else if i == ls.len() - 1 && j < k {
                            assert(w2[j] == w[j]);
                        }
                    }
                    assert forall|i: int, j: int| #[trigger] read_bad(ls2, k, i, j) == read_bad(
                        ls,
                        k,
                        i,
                        j,
                    ) by {
                        if 0 <= i < ls.len() - 1 {
                            assert(ls2[i] == ls[i]);
                        } else if i == ls.len() - 1 && 0 <= j < k {
                            assert(w2[j] == w[j]);
                        }
                    }
                }
            }
            n += 1;
        }
        let ghost ls = lines(text@);
        let ghost w = tokens(ls.last());
        let ghost k = ended(ls.last(), in_token);
        proof {
            assert(text@.subrange(0, n as int) =~= text@);
            lemma_lines_nonempty(text@);
            if in_token {
                lemma_tokens_last(ls.last());
            }
        }
        if in_token {
            if line < 9 && index < 9 {
                if !bad && value <= 9 {
                    board.set(line, index, value);
                } else if err.is_none() {
                    err = Some((line, index));
                }
            }
            proof {
                assert(valid_token(w[k]) == (!bad && value <= 9));
                assert forall|i: int, j: int| on_board(i, j) implies #[trigger] board@[i][j]
                    == read_cell(ls, w.len() as int, i, j) by {
                    if i == ls.len() - 1 && j == k {
                    }
                }
                assert forall|i: int, j: int|
                    #[trigger] read_bad(ls, w.len() as int, i, j) implies read_bad(ls, k, i, j) || (i
                        == ls.len() - 1 && j == k) by {
                }
            }
        }
        proof {
            let k1 = w.len() as int;
            assert forall|i: int, j: int| #[trigger] bad_token(text@, i, j) == read_bad(ls, k1, i, j) by {
            }
            assert forall|i: int| 0 <= i < 9 implies #[trigger] board@[i] =~= text_grid(text@)[i] by {
                assert forall|j: int| 0 <= j < 9 implies board@[i][j] == text_grid(text@)[i][j] by {
                    assert(board@[i][j] == read_cell(ls, k1, i, j));
                }
            }
            assert(board@ =~= text_grid(text@));
            if err is Some {
                let (a, b) = err.unwrap();
                assert(bad_token(text@, a as int, b as int));
            } else {
                assert forall|i: int, j: int| !bad_token(text@, i, j) by {
                    assert(!read_bad(ls, k1, i, j));
                }
            }
        }
        match err {
            Some((l, i)) => Err(LoadError::InvalidNumber { line: l, index: i }),
            None => Ok(board),
        }
    }
}

} // verus!
