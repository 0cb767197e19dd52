use life::rle::{parse_file, parse_grid, parse_header, Header, PatternFileParseError};
use life::rule::Rule;

type Grid = Vec<Vec<bool>>;

fn grid_from_cells(width: usize, height: usize, cells: &[(usize, usize)]) -> Grid {
    let mut grid = vec![vec![false; width]; height];
    for (x, y) in cells {
        grid[*y][*x] = true;
    }
    grid
}

#[test]
fn test_parse_headers() {
    assert_eq!(
        Ok(Header { width: 20, height: 10, rule: None }),
        parse_header("x = 20, y = 10")
    );
    assert_eq!(
        Ok(Header { width: 20, height: 10, rule: Rule::parse("B3/S23").ok() }),
        parse_header("x = 20, y = 10, rule = B3/S23")
    );
}

#[test]
fn test_parse_grid() {
    let header = Header { width: 3, height: 3, rule: None };
    let expected: Grid = vec![
        vec![false, true, false],
        vec![false, false, true],
        vec![true, true, true],
    ];
    assert_eq!(Ok(expected), parse_grid(&header, "bo$2bo$3o!"));
}

#[test]
fn test_parse_file() {
    let contents = "x = 3, y = 3, rule = 23/3\nbo$2bo$3o!";
    let expected_grid: Grid = vec![
        vec![false, true, false],
        vec![false, false, true],
        vec![true, true, true],
    ];
    assert_eq!(Ok((expected_grid, Rule::parse("B3/S23").ok())), parse_file(contents));
}

#[test]
fn test_parse_file_larger_pattern() {
    let contents = "x = 36, y = 9\n24bo$22bobo$12b2o6b2o12b2o$11bo3bo4b2o12b2o$2o8bo5bo3b2o$2o8bo3bob2o4b\nobo$10bo5bo7bo$11bo3bo$12b2o!\n";
    let expected = grid_from_cells(
        36,
        9,
        &[
            (24, 0),
            (22, 1), (24, 1),
            (12, 2), (13, 2), (20, 2), (21, 2), (34, 2), (35, 2),
            (11, 3), (15, 3), (20, 3), (21, 3), (34, 3), (35, 3),
            (0, 4), (1, 4), (10, 4), (16, 4), (20, 4), (21, 4),
            (0, 5), (1, 5), (10, 5), (14, 5), (16, 5), (17, 5), (22, 5), (24, 5),
            (10, 6), (16, 6), (24, 6),
            (11, 7), (15, 7),
            (12, 8), (13, 8),
        ],
    );
    assert_eq!(Ok((expected, None)), parse_file(contents));
}

#[test]
fn test_parse_file_without_newline_fails() {
    assert_eq!(Err(PatternFileParseError::MissingHeader), parse_file("x = 3, y = 3"));
}

#[test]
fn test_parse_header_without_equals_fails() {
    assert_eq!(Err(PatternFileParseError::MalformedHeader), parse_header("x 20, y = 10"));
}

#[test]
fn test_parse_header_bad_number_fails() {
    assert_eq!(Err(PatternFileParseError::BadNumber), parse_header("x = abc, y = 10"));
    assert_eq!(
        Err(PatternFileParseError::BadNumber),
        parse_header("x = 99999999999999999999999999999999, y = 10")
    );
}

#[test]
fn test_parse_header_ignores_unknown_keys_and_bad_rules() {
    assert_eq!(
        Ok(Header { width: 4, height: 2, rule: None }),
        parse_header("x = 4, y = 2, wrap = yes")
    );
    // a rule value that does not parse leaves no rule behind
    assert_eq!(
        Ok(Header { width: 4, height: 2, rule: None }),
        parse_header("x = 4, y = 2, rule = Bzzz")
    );
}

#[test]
fn test_parse_grid_run_too_long_fails() {
    let header = Header { width: 2, height: 2, rule: None };
    assert_eq!(Err(PatternFileParseError::OutOfBounds), parse_grid(&header, "3o!"));
}

#[test]
fn test_parse_grid_too_many_rows_fails() {
    let header = Header { width: 2, height: 2, rule: None };
    assert_eq!(Err(PatternFileParseError::OutOfBounds), parse_grid(&header, "2o$2o$o!"));
}

#[test]
fn test_parse_grid_huge_run_length_fails() {
    let header = Header { width: 2, height: 2, rule: None };
    assert_eq!(
        Err(PatternFileParseError::BadNumber),
        parse_grid(&header, "99999999999999999999999999999999o!")
    );
}

#[test]
fn test_parse_grid_stops_at_terminator() {
    // the first `!` ends the pattern; whatever follows cannot change the
    // grid
    let header = Header { width: 2, height: 1, rule: None };
    let expected: Grid = vec![vec![true, false]];
    assert_eq!(Ok(expected), parse_grid(&header, "o!o"));
    let all_dead: Grid = vec![vec![false, false]];
    assert_eq!(Ok(all_dead), parse_grid(&header, "!3o$$$"));
}

#[test]
fn test_parse_grid_dead_run_may_pass_the_edge() {
    // a dead run may move the cursor past the row's end; only live cells
    // must stay on the grid
    let header = Header { width: 2, height: 2, rule: None };
    let expected: Grid = vec![vec![true, false], vec![false, true]];
    assert_eq!(Ok(expected), parse_grid(&header, "o9b$bo!"));
}
