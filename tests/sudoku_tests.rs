use sudoku::Sudoku;

fn board_from(rows: [[u8; 9]; 9]) -> Sudoku {
    let mut s = Sudoku::new();
    for r in 0..9 {
        for c in 0..9 {
            s.set(r, c, rows[r][c]);
        }
    }
    s
}

fn cells(s: &Sudoku) -> [[u8; 9]; 9] {
    let mut out = [[0u8; 9]; 9];
    for r in 0..9 {
        for c in 0..9 {
            out[r][c] = s.get(r, c);
        }
    }
    out
}

fn is_solved(g: &[[u8; 9]; 9]) -> bool {
    for i in 0..9 {
        let mut row = [false; 10];
        let mut col = [false; 10];
        let mut bx = [false; 10];
        for j in 0..9 {
            let a = g[i][j] as usize;
            let b = g[j][i] as usize;
            let c = g[i / 3 * 3 + j / 3][i % 3 * 3 + j % 3] as usize;
            for v in [a, b, c] {
                if v == 0 || v > 9 {
                    return false;
                }
            }
            if row[a] || col[b] || bx[c] {
                return false;
            }
            row[a] = true;
            col[b] = true;
            bx[c] = true;
        }
    }
    true
}

#[test]
fn new_board_is_empty() {
    let s = Sudoku::new();
    for r in 0..9 {
        for c in 0..9 {
            assert_eq!(s.get(r, c), 0);
        }
    }
}

#[test]
fn set_changes_one_cell() {
    let mut s = Sudoku::new();
    s.set(4, 7, 3);
    assert_eq!(s.get(4, 7), 3);
    assert_eq!(s.get(7, 4), 0);
    s.set(4, 7, 0);
    assert_eq!(s.get(4, 7), 0);
}

#[test]
fn empty_board_solves_to_first_grid() {
    let mut s = Sudoku::new();
    assert!(s.solve());
    let expected: [[u8; 9]; 9] = [
        [1, 2, 3, 4, 5, 6, 7, 8, 9],
        [4, 5, 6, 7, 8, 9, 1, 2, 3],
        [7, 8, 9, 1, 2, 3, 4, 5, 6],
        [2, 1, 4, 3, 6, 5, 8, 9, 7],
        [3, 6, 5, 8, 9, 7, 2, 1, 4],
        [8, 9, 7, 2, 1, 4, 3, 6, 5],
        [5, 3, 1, 6, 4, 2, 9, 7, 8],
        [6, 4, 2, 9, 7, 8, 5, 3, 1],
        [9, 7, 8, 5, 3, 1, 6, 4, 2],
    ];
    let got = cells(&s);
    assert!(is_solved(&got));
    assert_eq!(got, expected);
}

#[test]
fn single_clue_is_kept() {
    let mut s = Sudoku::new();
    s.set(0, 0, 5);
    assert!(s.solve());
    let got = cells(&s);
    assert_eq!(got[0][0], 5);
    assert!(is_solved(&got));
}

#[test]
fn classic_puzzle_solves() {
    let puzzle: [[u8; 9]; 9] = [
        [5, 3, 0, 0, 7, 0, 0, 0, 0],
        [6, 0, 0, 1, 9, 5, 0, 0, 0],
        [0, 9, 8, 0, 0, 0, 0, 6, 0],
        [8, 0, 0, 0, 6, 0, 0, 0, 3],
        [4, 0, 0, 8, 0, 3, 0, 0, 1],
        [7, 0, 0, 0, 2, 0, 0, 0, 6],
        [0, 6, 0, 0, 0, 0, 2, 8, 0],
        [0, 0, 0, 4, 1, 9, 0, 0, 5],
        [0, 0, 0, 0, 8, 0, 0, 7, 9],
    ];
    let solution: [[u8; 9]; 9] = [
        [5, 3, 4, 6, 7, 8, 9, 1, 2],
        [6, 7, 2, 1, 9, 5, 3, 4, 8],
        [1, 9, 8, 3, 4, 2, 5, 6, 7],
        [8, 5, 9, 7, 6, 1, 4, 2, 3],
        [4, 2, 6, 8, 5, 3, 7, 9, 1],
        [7, 1, 3, 9, 2, 4, 8, 5, 6],
        [9, 6, 1, 5, 3, 7, 2, 8, 4],
        [2, 8, 7, 4, 1, 9, 6, 3, 5],
        [3, 4, 5, 2, 8, 6, 1, 7, 9],
    ];
    let mut s = board_from(puzzle);
    assert!(s.solve());
    let got = cells(&s);
    assert_eq!(got, solution);
    for r in 0..9 {
        for c in 0..9 {
            if puzzle[r][c] != 0 {
                assert_eq!(got[r][c], puzzle[r][c]);
            }
        }
    }
}

#[test]
fn solving_twice_gives_the_same_grid() {
    let mut a = Sudoku::new();
    let mut b = Sudoku::new();
    a.set(4, 4, 9);
    b.set(4, 4, 9);
    assert!(a.solve());
    assert!(b.solve());
    assert_eq!(cells(&a), cells(&b));
}

#[test]
fn two_fives_in_a_row_fail_and_leave_the_board() {
    let mut puzzle = [[0u8; 9]; 9];
    puzzle[0] = [5, 5, 1, 2, 3, 4, 6, 7, 0];
    puzzle[1][8] = 8;
    puzzle[2][8] = 9;
    let mut s = board_from(puzzle);
    assert!(!s.solve());
    assert_eq!(cells(&s), puzzle);
    assert!(!s.solve());
    assert_eq!(cells(&s), puzzle);
}

#[test]
fn failure_after_backtracking_restores_the_board() {
    // (0,0) can only take 9, and then (0,1) has nothing left.
    let mut puzzle = [[0u8; 9]; 9];
    puzzle[0] = [0, 0, 1, 2, 3, 4, 5, 6, 7];
    puzzle[1][0] = 8;
    let mut s = board_from(puzzle);
    assert!(!s.solve());
    assert_eq!(cells(&s), puzzle);
}

#[test]
fn full_board_is_accepted_as_it_is() {
    let grid: [[u8; 9]; 9] = [
        [5, 3, 4, 6, 7, 8, 9, 1, 2],
        [6, 7, 2, 1, 9, 5, 3, 4, 8],
        [1, 9, 8, 3, 4, 2, 5, 6, 7],
        [8, 5, 9, 7, 6, 1, 4, 2, 3],
        [4, 2, 6, 8, 5, 3, 7, 9, 1],
        [7, 1, 3, 9, 2, 4, 8, 5, 6],
        [9, 6, 1, 5, 3, 7, 2, 8, 4],
        [2, 8, 7, 4, 1, 9, 6, 3, 5],
        [3, 4, 5, 2, 8, 6, 1, 7, 9],
    ];
    let mut s = board_from(grid);
    assert!(s.solve());
    assert_eq!(cells(&s), grid);
}

#[test]
fn empty_board_renders_blank() {
    let s = Sudoku::new();
    let rule = "+-------+-------+-------+\n";
    let blank = "|       |       |       |\n";
    let mut expected = String::new();
    for i in 0..9 {
        if i % 3 == 0 {
            expected.push_str(rule);
        }
        expected.push_str(blank);
    }
    expected.push_str(rule);
    let text = s.render();
    assert_eq!(text, expected);
    assert_eq!(text.lines().count(), 13);
    assert_eq!(text.matches(rule).count(), 4);
}

#[test]
fn filled_cells_render_as_digits() {
    let mut s = Sudoku::new();
    s.set(0, 0, 5);
    s.set(4, 8, 9);
    let text = s.render();
    let lines: Vec<&str> = text.lines().collect();
    assert_eq!(lines[0], "+-------+-------+-------+");
    assert_eq!(lines[1], "| 5     |       |       |");
    assert_eq!(lines[6], "|       |       |     9 |");
    assert_eq!(lines[12], "+-------+-------+-------+");
}

#[test]
fn full_board_with_a_repeat_fails_and_is_left_as_it_is() {
    let mut grid = [[0u8; 9]; 9];
    for r in 0..9 {
        for c in 0..9 {
            grid[r][c] = 1;
        }
    }
    let mut s = board_from(grid);
    assert!(!s.solve());
    assert_eq!(cells(&s), grid);
}

#[test]
fn row_starting_with_two_ones_has_no_solution() {
    let mut grid = [[0u8; 9]; 9];
    grid[0] = [1, 1, 0, 0, 0, 0, 0, 0, 0];
    let mut s = board_from(grid);
    assert!(!s.solve());
    assert_eq!(cells(&s), grid);
}

#[test]
fn two_fives_in_row_zero_have_no_solution() {
    let mut grid = [[0u8; 9]; 9];
    grid[0][2] = 5;
    grid[0][7] = 5;
    let mut s = board_from(grid);
    assert!(!s.solve());
    assert_eq!(cells(&s), grid);
}

#[test]
fn clash_in_a_column_or_box_has_no_solution() {
    let mut grid = [[0u8; 9]; 9];
    grid[1][4] = 7;
    grid[8][4] = 7;
    let mut s = board_from(grid);
    assert!(!s.solve());
    let mut grid = [[0u8; 9]; 9];
    grid[3][3] = 2;
    grid[5][5] = 2;
    let mut s = board_from(grid);
    assert!(!s.solve());
    assert_eq!(cells(&s), grid);
}

#[test]
fn solved_board_renders_its_digits() {
    let mut s = Sudoku::new();
    assert!(s.solve());
    let text = s.render();
    let lines: Vec<&str> = text.lines().collect();
    assert_eq!(lines.len(), 13);
    assert_eq!(lines[1], "| 1 2 3 | 4 5 6 | 7 8 9 |");
    assert_eq!(lines[5], "| 2 1 4 | 3 6 5 | 8 9 7 |");
    assert_eq!(lines[4], "+-------+-------+-------+");
}
