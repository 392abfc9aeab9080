use advent_puzzles::calibration::{
    combine_outer_digits, find_embedded_number, number_from_numerals, sum_digit_lines, sum_lines,
    Digit,
};

const INPUT: &str = "1abc2\npqr3stu8vwx\na1b2c3d4e5f\ntreb7uchet";
const INPUT2: &str = "two1nine\neightwothree\nabcone2threexyz\nxtwone3four\n4nineeightseven2\nzoneight234\n7pqrstsixteen";

fn digits(items: &[(usize, i32)]) -> Vec<Digit> {
    items.iter().map(|(i, v)| Digit { index: *i, value: *v }).collect()
}

#[test]
fn test_digit_construction() {
    assert_eq!(Digit::new(0, "1").value, 1);
    assert_eq!(Digit::new(0, "two").value, 2);
    assert_eq!(Digit::new(0, "jdfkls").value, 0);
}

#[test]
fn test_digit_extract() {
    assert_eq!(Digit::extract_all("1one"), digits(&[(0, 1), (1, 1)]));
    assert_eq!(
        Digit::extract_all("ab1threetwoone5"),
        digits(&[(2, 1), (14, 5), (11, 1), (8, 2), (3, 3)])
    );
}

#[test]
fn test_combine_outer_digits() {
    assert_eq!(combine_outer_digits(&digits(&[(0, 1), (1, 2)])), 12);
    assert_eq!(combine_outer_digits(&digits(&[(0, 7)])), 77);
    assert_eq!(combine_outer_digits(&digits(&[(3, 8), (5, 1), (2, 4), (4, 2)])), 41);
    assert_eq!(combine_outer_digits(&vec![]), 0);
    assert_eq!(combine_outer_digits(&digits(&[(0, 150_000_000)])), 1_650_000_000);
    assert_eq!(combine_outer_digits(&digits(&[(0, 214_748_365), (1, -10)])), 2_147_483_640);
}

#[test]
fn test_find_nums() {
    let cases = [("1abc2", 12), ("pqr3stu8vwx", 38), ("a1b2c3d4e5f", 15), ("treb7uchet", 77)];
    for (line, target) in cases {
        assert_eq!(combine_outer_digits(&Digit::extract_all(line)), target);
    }
}

#[test]
fn test_sum_lines() {
    assert_eq!(sum_digit_lines(INPUT), Some(142));
}

#[test]
fn test_sum_string_numbers() {
    assert_eq!(sum_digit_lines(INPUT2), Some(281));
}

#[test]
fn overlapping_words_are_both_found() {
    let found = Digit::extract_all("oneight");
    assert_eq!(found, digits(&[(0, 1), (2, 8)]));
    assert_eq!(combine_outer_digits(&found), 18);
    assert_eq!(Digit::extract_all("aaa"), vec![]);
    assert_eq!(Digit::extract_all("é1"), digits(&[(2, 1)]));
}

#[test]
fn numerals_only() {
    assert_eq!(find_embedded_number("1abc2"), 12);
    assert_eq!(find_embedded_number("treb7uchet"), 77);
    assert_eq!(find_embedded_number("two"), 0);
    assert_eq!(find_embedded_number("a٣b4"), 4);
    assert_eq!(sum_lines(INPUT), Some(142));
    assert_eq!(number_from_numerals(&vec!['x', '5', 'y', '6'], &vec![false, true, false, true]), 56);
    assert_eq!(number_from_numerals(&vec!['x', '5'], &vec![true, true]), 5);
}

#[test]
fn empty_text_sums_to_zero() {
    assert_eq!(sum_lines(""), Some(0));
    assert_eq!(sum_digit_lines(""), Some(0));
    assert_eq!(sum_digit_lines("abc\nxyz"), Some(0));
}

#[test]
fn ascii_lines_use_their_first_and_last_decimal_digit() {
    assert_eq!(find_embedded_number("pqr3stu8vwx"), 38);
    assert_eq!(find_embedded_number("x9"), 99);
    assert_eq!(find_embedded_number("+-*"), 0);
}
