use sudoku::loader::LoadError;
use sudoku::Sudoku;

fn row(s: &Sudoku, r: usize) -> Vec<u8> {
    (0..9).map(|c| s.get(r, c)).collect()
}

#[test]
fn reads_a_full_puzzle() {
    let text = "5 3 0 0 7 0 0 0 0\n\
                6 0 0 1 9 5 0 0 0\n\
                0 9 8 0 0 0 0 6 0\n\
                8 0 0 0 6 0 0 0 3\n\
                4 0 0 8 0 3 0 0 1\n\
                7 0 0 0 2 0 0 0 6\n\
                0 6 0 0 0 0 2 8 0\n\
                0 0 0 4 1 9 0 0 5\n\
                0 0 0 0 8 0 0 7 9\n";
    let s = Sudoku::from_text(text.as_bytes()).unwrap();
    assert_eq!(row(&s, 0), vec![5, 3, 0, 0, 7, 0, 0, 0, 0]);
    assert_eq!(row(&s, 4), vec![4, 0, 0, 8, 0, 3, 0, 0, 1]);
    assert_eq!(row(&s, 8), vec![0, 0, 0, 0, 8, 0, 0, 7, 9]);
}

#[test]
fn short_input_leaves_cells_empty() {
    let s = Sudoku::from_text(b"1 2 3\n\n  4\t5").unwrap();
    assert_eq!(row(&s, 0), vec![1, 2, 3, 0, 0, 0, 0, 0, 0]);
    assert_eq!(row(&s, 1), vec![0; 9]);
    assert_eq!(row(&s, 2), vec![4, 5, 0, 0, 0, 0, 0, 0, 0]);
    for r in 3..9 {
        assert_eq!(row(&s, r), vec![0; 9]);
    }
}

#[test]
fn extra_numbers_and_lines_are_ignored() {
    let mut text = String::new();
    for _ in 0..10 {
        text.push_str("1 2 3 4 5 6 7 8 9 42 x\n");
    }
    let s = Sudoku::from_text(text.as_bytes()).unwrap();
    for r in 0..9 {
        assert_eq!(row(&s, r), vec![1, 2, 3, 4, 5, 6, 7, 8, 9]);
    }
}

#[test]
fn carriage_returns_and_leading_zeros_are_accepted() {
    let s = Sudoku::from_text(b"07 0 9\r\n3\r\n").unwrap();
    assert_eq!(row(&s, 0), vec![7, 0, 9, 0, 0, 0, 0, 0, 0]);
    assert_eq!(row(&s, 1), vec![3, 0, 0, 0, 0, 0, 0, 0, 0]);
}

#[test]
fn non_number_is_refused_with_its_place() {
    let r = Sudoku::from_text(b"0 0 0\n1 2\n3 4 5 x 6\n");
    assert_eq!(r.err(), Some(LoadError::InvalidNumber { line: 2, index: 3 }));
}

#[test]
fn number_above_nine_is_refused() {
    let r = Sudoku::from_text(b"12");
    assert_eq!(r.err(), Some(LoadError::InvalidNumber { line: 0, index: 0 }));
    let r = Sudoku::from_text(b"1 2 3 4 5 6 7 8 10");
    assert_eq!(r.err(), Some(LoadError::InvalidNumber { line: 0, index: 8 }));
}

#[test]
fn loaded_puzzle_solves() {
    let mut s = Sudoku::from_text(b"5 5 1 2 3 4 6 7 0\n0 0 0 0 0 0 0 0 8\n0 0 0 0 0 0 0 0 9\n").unwrap();
    assert!(!s.solve());
    assert_eq!(s.get(0, 1), 5);
    assert_eq!(s.get(0, 8), 0);
}

#[test]
fn first_bad_token_in_reading_order_is_reported() {
    let r = Sudoku::from_text(b"1 2 3\n4 ? 6 x\n");
    assert_eq!(r.err(), Some(LoadError::InvalidNumber { line: 1, index: 1 }));
    let r = Sudoku::from_text(b"1 2 3 4 5 6 7 8 9 x\n1 2 3 4 5 6 7 8 +5\n");
    assert_eq!(r.err(), Some(LoadError::InvalidNumber { line: 1, index: 8 }));
}
