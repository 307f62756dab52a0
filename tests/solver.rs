use sudoku_solver::{SudokuPoint, SudokuState, SudokuValue};

fn simple_puzzle() -> String {
    let mut s = String::new();
    s += "_ _ _ _ 4 2 _ _ _\n";
    s += "_ 3 2 _ 7 _ 8 _ _\n";
    s += "7 _ 1 8 _ _ 2 _ 4\n";
    s += "_ _ _ _ 8 _ 5 _ 7\n";
    s += "1 7 8 _ _ _ 3 4 2\n";
    s += "5 _ 3 _ 2 _ _ _ _\n";
    s += "3 _ 5 _ _ 8 7 _ 1\n";
    s += "_ _ 7 _ 6 _ 4 2 _\n";
    s += "_ _ _ 7 1 _ _ _ _\n";
    s
}

fn diabolical_puzzle() -> String {
    let mut s = String::new();
    s += "_ _ _ 6 4 _ _ _ 8\n";
    s += "_ _ _ _ 5 _ 9 _ _\n";
    s += "_ 4 _ 9 _ _ 2 3 _\n";
    s += "_ _ _ _ _ _ 6 _ 1\n";
    s += "1 _ _ 7 _ 4 _ _ 9\n";
    s += "8 _ 4 _ _ _ _ _ _\n";
    s += "_ 8 2 _ _ 1 _ 6 _\n";
    s += "_ _ 7 _ 3 _ _ _ _\n";
    s += "5 _ _ _ 6 9 _ _ _\n";
    s
}

fn simple_solution_rows() -> [&'static str; 9] {
    [
        "8 5 9 1 4 2 6 7 3",
        "4 3 2 6 7 5 8 1 9",
        "7 6 1 8 3 9 2 5 4",
        "6 2 4 3 8 1 5 9 7",
        "1 7 8 9 5 6 3 4 2",
        "5 9 3 4 2 7 1 8 6",
        "3 4 5 2 9 8 7 6 1",
        "9 1 7 5 6 3 4 2 8",
        "2 8 6 7 1 4 9 3 5",
    ]
}

fn rows_text(rows: &[&str]) -> String {
    let mut s = String::new();
    for r in rows {
        s += r;
        s += "\n";
    }
    s
}

fn digit(state: &SudokuState, x: u8, y: u8) -> char {
    state.get(&SudokuPoint(x, y)).to_char()
}

fn assert_valid(state: &SudokuState) {
    let mut groups = SudokuPoint::get_horizontal_lines();
    groups.extend(SudokuPoint::get_vertical_lines());
    groups.extend(SudokuPoint::get_blocks());
    assert_eq!(groups.len(), 27);
    for group in groups {
        let mut seen = [false; 10];
        for p in group.iter() {
            let c = state.get(p).to_char();
            assert!(('1'..='9').contains(&c));
            let d = c as usize - '0' as usize;
            assert!(!seen[d]);
            seen[d] = true;
        }
    }
}

fn assert_keeps_givens(puzzle: &SudokuState, solution: &SudokuState) {
    for p in SudokuPoint::all_points() {
        let v = puzzle.get(&p);
        if v != SudokuValue::Empty {
            assert_eq!(solution.get(&p), v);
        }
    }
}

#[test]
fn test_parse() {
    let mut input_str = String::new();
    for i in 0..9 {
        for j in 0..9 {
            input_str += &format!("{} ", (i + j) % 9 + 1);
        }
        input_str += "\n";
    }
    let state = SudokuState::new(&input_str);
    for i in 0..9 {
        for j in 0..9 {
            assert_eq!(state.values[i][j].to_char().to_string(), format!("{}", (i + j) % 9 + 1));
        }
    }
}

#[test]
fn test_format_from_file() {
    let lines = simple_puzzle();
    let state = SudokuState::new(&lines);
    let mut expected_string = String::new();
    expected_string += "+-------+-------+-------+\n";
    expected_string += "| _ _ _ | _ 4 2 | _ _ _ |\n";
    expected_string += "| _ 3 2 | _ 7 _ | 8 _ _ |\n";
    expected_string += "| 7 _ 1 | 8 _ _ | 2 _ 4 |\n";
    expected_string += "+-------+-------+-------+\n";
    expected_string += "| _ _ _ | _ 8 _ | 5 _ 7 |\n";
    expected_string += "| 1 7 8 | _ _ _ | 3 4 2 |\n";
    expected_string += "| 5 _ 3 | _ 2 _ | _ _ _ |\n";
    expected_string += "+-------+-------+-------+\n";
    expected_string += "| 3 _ 5 | _ _ 8 | 7 _ 1 |\n";
    expected_string += "| _ _ 7 | _ 6 _ | 4 2 _ |\n";
    expected_string += "| _ _ _ | 7 1 _ | _ _ _ |\n";
    expected_string += "+-------+-------+-------+\n";
    assert_eq!(state.to_string(), expected_string);
}

#[test]
fn test_find_values_at_point() {
    let input_str = simple_puzzle();
    let state = SudokuState::new(&input_str);
    assert_eq!(
        state.find_allowed_values_at_point(&SudokuPoint(2, 8)),
        vec![SudokuValue::Four, SudokuValue::Six, SudokuValue::Nine]
    );
}

#[test]
fn test_reduce_at_point() {
    let input_str = simple_puzzle();
    let mut state = SudokuState::new(&input_str);
    assert!(state.reduce_at_point(&SudokuPoint(4, 6)).is_ok());
    assert_eq!(state.get(&SudokuPoint(4, 6)), SudokuValue::Nine);
}

#[test]
fn test_reduce_blocks() {
    let input_str = simple_puzzle();
    let mut state = SudokuState::new(&input_str);
    state.reduce_blocks();
    assert_eq!(state.get(&SudokuPoint(1, 7)), SudokuValue::One);
}

#[test]
fn test_unsolveable_gives_error() {
    let mut input_str = String::new();
    input_str += "1 2 3 4 5 6 7 8 _\n";
    input_str += "_ _ _ _ _ _ _ _ 9\n";
    input_str += "_ _ _ _ _ _ _ _ _\n";
    input_str += "_ _ _ _ _ _ _ _ _\n";
    input_str += "_ _ _ _ _ _ _ _ _\n";
    input_str += "_ _ _ _ _ _ _ _ _\n";
    input_str += "_ _ _ _ _ _ _ _ _\n";
    input_str += "_ _ _ _ _ _ _ _ _\n";
    input_str += "_ _ _ _ _ _ _ _ _\n";
    let state = SudokuState::new(&input_str);
    let solution = state.solve();
    assert!(solution.is_err());
}

#[test]
fn test_simple_solve() {
    let input_str = simple_puzzle();
    let state = SudokuState::new(&input_str);
    let solution = state.solve().expect("the puzzle has a solution");
    assert_eq!(solution.len(), 1);
    let solution = &solution[0];
    assert_eq!(solution.empty_count(), 0);
    let mut expected_solution = String::new();
    expected_solution += "+-------+-------+-------+\n";
    expected_solution += "| 8 5 9 | 1 4 2 | 6 7 3 |\n";
    expected_solution += "| 4 3 2 | 6 7 5 | 8 1 9 |\n";
    expected_solution += "| 7 6 1 | 8 3 9 | 2 5 4 |\n";
    expected_solution += "+-------+-------+-------+\n";
    expected_solution += "| 6 2 4 | 3 8 1 | 5 9 7 |\n";
    expected_solution += "| 1 7 8 | 9 5 6 | 3 4 2 |\n";
    expected_solution += "| 5 9 3 | 4 2 7 | 1 8 6 |\n";
    expected_solution += "+-------+-------+-------+\n";
    expected_solution += "| 3 4 5 | 2 9 8 | 7 6 1 |\n";
    expected_solution += "| 9 1 7 | 5 6 3 | 4 2 8 |\n";
    expected_solution += "| 2 8 6 | 7 1 4 | 9 3 5 |\n";
    expected_solution += "+-------+-------+-------+\n";
    assert_eq!(solution.to_string(), expected_solution);
}

#[test]
fn test_diabolical_solve() {
    let input_str = diabolical_puzzle();
    let state = SudokuState::new(&input_str);
    let solution = state.solve().expect("the puzzle has a solution");
    assert_eq!(solution.len(), 1);
    let solution = &solution[0];
    assert_eq!(solution.empty_count(), 0);
    let mut expected_solution = String::new();
    expected_solution += "+-------+-------+-------+\n";
    expected_solution += "| 3 9 1 | 6 4 2 | 5 7 8 |\n";
    expected_solution += "| 6 2 8 | 3 5 7 | 9 1 4 |\n";
    expected_solution += "| 7 4 5 | 9 1 8 | 2 3 6 |\n";
    expected_solution += "+-------+-------+-------+\n";
    expected_solution += "| 2 7 9 | 5 8 3 | 6 4 1 |\n";
    expected_solution += "| 1 3 6 | 7 2 4 | 8 5 9 |\n";
    expected_solution += "| 8 5 4 | 1 9 6 | 7 2 3 |\n";
    expected_solution += "+-------+-------+-------+\n";
    expected_solution += "| 9 8 2 | 4 7 1 | 3 6 5 |\n";
    expected_solution += "| 4 6 7 | 8 3 5 | 1 9 2 |\n";
    expected_solution += "| 5 1 3 | 2 6 9 | 4 8 7 |\n";
    expected_solution += "+-------+-------+-------+\n";
    assert_eq!(solution.to_string(), expected_solution);
}

#[test]
fn solutions_are_valid_and_keep_the_givens() {
    for text in [simple_puzzle(), diabolical_puzzle()] {
        let puzzle = SudokuState::new(&text);
        let solutions = puzzle.solve().expect("the puzzle has a solution");
        for s in solutions.iter() {
            assert_valid(s);
            assert_keeps_givens(&puzzle, s);
        }
    }
}

#[test]
fn ambiguous_puzzle_has_two_solutions() {
    let mut rows = simple_solution_rows();
    rows[0] = "8 5 9 1 _ 2 6 7 _";
    rows[2] = "7 6 1 8 _ 9 2 5 _";
    let puzzle = SudokuState::new(&rows_text(&rows));
    assert_eq!(puzzle.empty_count(), 4);
    let solutions = puzzle.solve().expect("the puzzle has solutions");
    assert_eq!(solutions.len(), 2);
    assert_ne!(solutions[0].to_string(), solutions[1].to_string());
    for s in solutions.iter() {
        assert_valid(s);
        assert_keeps_givens(&puzzle, s);
    }
    let mut corners: Vec<(char, char)> = solutions.iter().map(|s| (digit(s, 4, 0), digit(s, 8, 0))).collect();
    corners.sort();
    assert_eq!(corners, vec![('3', '4'), ('4', '3')]);
}

#[test]
fn repeated_digit_in_a_row_is_unsolvable() {
    let mut rows = ["_ _ _ _ _ _ _ _ _"; 9];
    rows[0] = "1 1 _ _ _ _ _ _ _";
    let puzzle = SudokuState::new(&rows_text(&rows));
    assert!(!puzzle.has_no_conflicts());
    assert!(puzzle.solve().is_err());
}

#[test]
fn complete_grid_with_a_clash_is_unsolvable() {
    let mut rows = simple_solution_rows();
    rows[8] = "2 8 6 7 1 4 9 3 3";
    let puzzle = SudokuState::new(&rows_text(&rows));
    assert_eq!(puzzle.empty_count(), 0);
    assert!(puzzle.solve().is_err());
}

#[test]
fn solved_grid_is_its_own_solution() {
    let puzzle = SudokuState::new(&rows_text(&simple_solution_rows()));
    assert!(puzzle.has_no_conflicts());
    let solutions = puzzle.solve().expect("a solved grid solves");
    assert_eq!(solutions.len(), 1);
    assert_eq!(solutions[0].to_string(), puzzle.to_string());
    let again = SudokuState::new(&rows_text(&simple_solution_rows())).solve().expect("solves again");
    assert_eq!(again[0].to_string(), solutions[0].to_string());
}

#[test]
fn naked_single_places_the_last_digit_of_a_row() {
    let mut rows = ["_ _ _ _ _ _ _ _ _"; 9];
    rows[0] = "1 2 3 4 5 6 7 8 _";
    let mut state = SudokuState::new(&rows_text(&rows));
    assert_eq!(state.find_allowed_values_at_point(&SudokuPoint(8, 0)), vec![SudokuValue::Nine]);
    assert!(state.reduce_at_point(&SudokuPoint(8, 0)).is_ok());
    assert_eq!(state.get(&SudokuPoint(8, 0)), SudokuValue::Nine);
}

#[test]
fn one_blank_cell_is_filled_by_solving() {
    let mut rows = simple_solution_rows();
    rows[0] = "8 5 9 1 4 2 6 7 _";
    let puzzle = SudokuState::new(&rows_text(&rows));
    let solutions = puzzle.solve().expect("solvable");
    assert_eq!(solutions.len(), 1);
    assert_eq!(digit(&solutions[0], 8, 0), '3');
}

#[test]
fn empty_cell_without_candidates_is_an_error() {
    let mut rows = ["_ _ _ _ _ _ _ _ _"; 9];
    rows[0] = "1 2 3 4 5 6 7 8 _";
    rows[1] = "_ _ _ _ _ _ _ _ 9";
    let mut state = SudokuState::new(&rows_text(&rows));
    assert_eq!(state.find_allowed_values_at_point(&SudokuPoint(8, 0)), vec![]);
    assert!(state.reduce_at_point(&SudokuPoint(8, 0)).is_err());
}

#[test]
fn filled_cell_has_no_candidates() {
    let state = SudokuState::new(&simple_puzzle());
    assert_eq!(state.find_allowed_values_at_point(&SudokuPoint(4, 0)), vec![]);
}

#[test]
fn empty_count_counts_blanks() {
    let state = SudokuState::new(&simple_puzzle());
    assert_eq!(state.empty_count(), 47);
    let all_empty = SudokuState::new(&rows_text(&["_ _ _ _ _ _ _ _ _"; 9]));
    assert_eq!(all_empty.empty_count(), 81);
}

#[test]
fn parse_accepts_trailing_spaces_newlines_and_zero() {
    let mut text = String::new();
    for y in 0..9 {
        if y == 0 {
            text += "0 2 3 4 5 6 7 8 9   ";
        } else {
            text += "_ _ _ _ _ _ _ _ _";
        }
        text += "\n";
    }
    text += "\n\n";
    let state = SudokuState::parse(&text).expect("valid grid text");
    assert_eq!(state.get(&SudokuPoint(0, 0)), SudokuValue::Empty);
    assert_eq!(state.get(&SudokuPoint(1, 0)), SudokuValue::Two);
    assert_eq!(state.get(&SudokuPoint(8, 0)), SudokuValue::Nine);
    let no_final_break = rows_text(&["_ _ _ _ _ _ _ _ _"; 9]);
    assert!(SudokuState::parse(no_final_break.trim_end()).is_some());
}

#[test]
fn parse_rejects_malformed_text() {
    assert!(SudokuState::parse("").is_none());
    assert!(SudokuState::parse(&rows_text(&["_ _ _ _ _ _ _ _ _"; 8])).is_none());
    let mut rows = ["_ _ _ _ _ _ _ _ _"; 9];
    rows[3] = "_ _ _ x _ _ _ _ _";
    assert!(SudokuState::parse(&rows_text(&rows)).is_none());
    rows[3] = "_ _ _ _ _ _ _ _";
    assert!(SudokuState::parse(&rows_text(&rows)).is_none());
    rows[3] = "_  _ _ _ _ _ _ _ _";
    assert!(SudokuState::parse(&rows_text(&rows)).is_none());
    rows[3] = "_ _ _ _ _ _ _ _ _ _";
    assert!(SudokuState::parse(&rows_text(&rows)).is_none());
    let mut text = rows_text(&["_ _ _ _ _ _ _ _ _"; 9]);
    text += "_";
    assert!(SudokuState::parse(&text).is_none());
    let double_break = "_ _ _ _ _ _ _ _ _\n\n".to_string() + &rows_text(&["_ _ _ _ _ _ _ _ _"; 8]);
    assert!(SudokuState::parse(&double_break).is_none());
}

#[test]
fn from_digit_reads_digits_and_blanks() {
    assert_eq!(SudokuValue::from_digit('1'), SudokuValue::One);
    assert_eq!(SudokuValue::from_digit('5'), SudokuValue::Five);
    assert_eq!(SudokuValue::from_digit('9'), SudokuValue::Nine);
    assert_eq!(SudokuValue::from_digit('0'), SudokuValue::Empty);
    assert_eq!(SudokuValue::from_digit('x'), SudokuValue::Empty);
    assert_eq!(SudokuValue::Empty.to_char(), '_');
    assert_eq!(SudokuValue::Seven.to_char(), '7');
}

#[test]
fn all_values_ascend() {
    let values = SudokuValue::all_values();
    let chars: String = values.iter().map(|v| v.to_char()).collect();
    assert_eq!(chars, "123456789");
}

#[test]
fn all_points_go_column_by_column() {
    let points = SudokuPoint::all_points();
    assert_eq!(points.len(), 81);
    assert_eq!(points[0], SudokuPoint(0, 0));
    assert_eq!(points[1], SudokuPoint(0, 1));
    assert_eq!(points[10], SudokuPoint(1, 1));
    assert_eq!(points[80], SudokuPoint(8, 8));
}

#[test]
fn lines_and_blocks_have_the_right_cells() {
    let rows = SudokuPoint::get_horizontal_lines();
    assert_eq!(rows[4][7], SudokuPoint(7, 4));
    let columns = SudokuPoint::get_vertical_lines();
    assert_eq!(columns[4][7], SudokuPoint(4, 7));
    let blocks = SudokuPoint::get_blocks();
    assert_eq!(blocks[0][0], SudokuPoint(0, 0));
    assert_eq!(blocks[1][0], SudokuPoint(0, 3));
    assert_eq!(blocks[5][4], SudokuPoint(4, 7));
    assert_eq!(blocks[8][8], SudokuPoint(8, 8));
    let block = SudokuPoint(4, 7).get_block_matching();
    assert_eq!(block[0], SudokuPoint(3, 6));
    assert_eq!(block[1], SudokuPoint(3, 7));
    assert_eq!(block[8], SudokuPoint(5, 8));
    assert_eq!(SudokuPoint(4, 7).get_horizontal_matching()[2], SudokuPoint(2, 7));
    assert_eq!(SudokuPoint(4, 7).get_vertical_matching()[2], SudokuPoint(4, 2));
}
