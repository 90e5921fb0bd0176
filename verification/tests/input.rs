use n_puzzle::input::{blank_comments, parse_numbers, parse_puzzle, puzzle_from_numbers};
use n_puzzle::PuzzleError;

fn numbers(text: &str) -> Vec<i32> {
    parse_numbers(&blank_comments(text.as_bytes()))
}

#[test]
fn a_puzzle_is_read_from_text() {
    let s = parse_puzzle(b"3\n1 2 3\n4 0 6\n7 5 8\n").unwrap();
    assert_eq!(s.size(), 3);
    assert_eq!(s.table(), &vec![1, 2, 3, 4, 0, 6, 7, 5, 8]);
}

#[test]
fn comment_lines_are_skipped() {
    let text = b"# a puzzle of side 2\n2\n# first row 9 9 9\n1 2\n#3 3\n0 3\n";
    let s = parse_puzzle(text).unwrap();
    assert_eq!(s.size(), 2);
    assert_eq!(s.table(), &vec![1, 2, 0, 3]);
}

#[test]
fn a_hash_inside_a_line_starts_no_comment() {
    assert_eq!(numbers("1 # 2\n #3 4\n5"), vec![1, 2, 4, 5]);
    // The end of a comment line is blanked with the line.
    assert_eq!(
        blank_comments(b"1 # 2\n#3 4\n5"),
        b"1 # 2\n     5".to_vec()
    );
}

#[test]
fn any_white_space_separates() {
    assert_eq!(numbers("1\t2\r\n3\x0b4\x0c5  6"), vec![1, 2, 3, 4, 5, 6]);
    assert_eq!(numbers(""), Vec::<i32>::new());
    assert_eq!(numbers(" \n\t "), Vec::<i32>::new());
}

#[test]
fn signs_and_limits_of_integers() {
    assert_eq!(numbers("+7 -7 007 -0"), vec![7, -7, 7, 0]);
    assert_eq!(
        numbers("2147483647 -2147483648"),
        vec![2147483647, -2147483648]
    );
    assert_eq!(numbers("2147483648 -2147483649 1"), vec![1]);
    assert_eq!(numbers("99999999999999999999999999 2"), vec![2]);
}

#[test]
fn tokens_that_are_no_integers_are_passed_over() {
    assert_eq!(numbers("1 x 2 3.5 4a - + -- 5"), vec![1, 2, 5]);
}

#[test]
fn what_follows_the_cells_is_ignored() {
    let s = parse_puzzle(b"2 1 2 0 3 99 98").unwrap();
    assert_eq!(s.table(), &vec![1, 2, 0, 3]);
}

#[test]
fn text_without_a_side_is_invalid() {
    assert_eq!(parse_puzzle(b"").err(), Some(PuzzleError::InvalidInput));
    assert_eq!(
        parse_puzzle(b"# nothing\n").err(),
        Some(PuzzleError::InvalidInput)
    );
}

#[test]
fn a_negative_side_is_invalid() {
    assert_eq!(parse_puzzle(b"-1 0").err(), Some(PuzzleError::InvalidInput));
}

#[test]
fn a_side_of_zero_is_invalid() {
    assert_eq!(parse_puzzle(b"0").err(), Some(PuzzleError::InvalidInput));
}

#[test]
fn missing_cells_are_invalid() {
    assert_eq!(
        parse_puzzle(b"3 1 2 3 4 0 6 7 5").err(),
        Some(PuzzleError::InvalidInput)
    );
    assert_eq!(
        parse_puzzle(b"2147483647 0").err(),
        Some(PuzzleError::InvalidInput)
    );
}

#[test]
fn cells_that_are_no_permutation_are_invalid() {
    assert_eq!(
        parse_puzzle(b"2 1 2 2 0").err(),
        Some(PuzzleError::InvalidInput)
    );
    assert_eq!(
        parse_puzzle(b"2 1 2 3 4").err(),
        Some(PuzzleError::InvalidInput)
    );
}

#[test]
fn a_puzzle_from_numbers() {
    let s = puzzle_from_numbers(&vec![1, 0]).unwrap();
    assert_eq!(s.size(), 1);
    assert_eq!(
        puzzle_from_numbers(&vec![]).err(),
        Some(PuzzleError::InvalidInput)
    );
}
