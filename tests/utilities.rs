use std::collections::HashSet;
use toy_shell::{
    count_letters, count_words, cut, field_parser, field_set, format_with, format_with_or, merge, tally,
    unpack_ascii, ParseFieldError, UnpackError,
};

#[test]
fn counts_unpack_ascii() {
    assert_eq!(unpack_ascii("a4bc2d5e").ok().unwrap(), "aaaabccddddde");
    assert_eq!(unpack_ascii("abcd").ok().unwrap(), "abcd");
    assert_eq!(unpack_ascii("").ok().unwrap(), "");
    assert_eq!(unpack_ascii("a12b0c").ok().unwrap(), "aaaaaaaaaaaac");
    assert_eq!(unpack_ascii("45").err(), Some(UnpackError::MissingLetter));
    assert_eq!(
        unpack_ascii("a99999999999999999999").err(),
        Some(UnpackError::CountTooLarge)
    );
}

#[test]
fn field_numbers_count_from_one() {
    assert_eq!(field_parser("1"), Ok(0));
    assert_eq!(field_parser("+3"), Ok(2));
    assert_eq!(field_parser("0"), Err(ParseFieldError::LessThanOne));
    assert_eq!(field_parser("x"), Err(ParseFieldError::ParseIntError));
    assert_eq!(field_parser("-1"), Err(ParseFieldError::ParseIntError));
    assert_eq!(field_parser("4294967296"), Err(ParseFieldError::ParseIntError));
    assert_eq!(field_parser("4294967295"), Ok(4294967294));
}

#[test]
fn cut_keeps_the_chosen_columns() {
    let fields: HashSet<usize> = [0, 2].into_iter().collect();
    let cols = cut("a\tb\tc\td", &fields, '\t').unwrap();
    assert_eq!(
        cols,
        vec![Some("a".to_string()), None, Some("c".to_string()), None]
    );
    assert_eq!(format_with_or("a\tb\tc\td", Some(cols), '\t'), "a\tc");
    assert!(cut("no delimiter", &fields, '\t').is_none());
    assert_eq!(format_with_or("no delimiter", None, '\t'), "no delimiter");
}

#[test]
fn cut_with_empty_columns() {
    let fields: HashSet<usize> = [1, 3].into_iter().collect();
    let cols = cut("x,,y,", &fields, ',').unwrap();
    assert_eq!(cols, vec![None, Some(String::new()), None, Some(String::new())]);
    assert_eq!(format_with_or("x,,y,", Some(cols), ','), ",");
    let none: HashSet<usize> = HashSet::new();
    let cols = cut("p:q", &none, ':').unwrap();
    assert_eq!(format_with_or("p:q", Some(cols), ':'), "");
}

#[test]
fn merge_takes_turns() {
    assert_eq!(merge(&[1, 3, 5, 7], &[2, 4, 6, 8]), vec![1, 2, 3, 4, 5, 6, 7, 8]);
    assert_eq!(merge(&[1, 2, 3], &[9]), vec![1, 9, 2, 3]);
    assert_eq!(merge(&[], &[4, 5]), vec![4, 5]);
    assert_eq!(merge(&[], &[]), Vec::<i32>::new());
}

#[test]
fn words_are_runs_of_non_space() {
    assert_eq!(count_words(""), 0);
    assert_eq!(count_words("   "), 0);
    assert_eq!(count_words("one"), 1);
    assert_eq!(count_words("  two  words "), 2);
    assert_eq!(count_words("a\tb\u{3000}c"), 3);
}

#[test]
fn tally_adds_a_line() {
    let c = tally((Some(0), Some(0), Some(0)), "hello world");
    assert_eq!(c, (Some(12), Some(1), Some(2)));
    let c = tally((None, Some(4), None), "x");
    assert_eq!(c, (None, Some(5), None));
}

#[test]
fn wc_result_line() {
    assert_eq!(format_with("f.txt", (Some(12), Some(1), Some(2))), "12 1 2 \"f.txt\"");
    assert_eq!(format_with("f.txt", (None, None, Some(7))), "7 \"f.txt\"");
    assert_eq!(format_with("a\"b", (None, Some(0), None)), "0 \"a\\\"b\"");
    assert_eq!(format_with("x", (None, None, None)), " \"x\"");
}

#[test]
fn ascii_letters_are_counted() {
    let mut counts = vec![0usize; 52];
    count_letters("Hello, World! ж", &mut counts);
    assert_eq!(counts[('H' as u8 - b'A') as usize], 1);
    assert_eq!(counts[('W' as u8 - b'A') as usize], 1);
    assert_eq!(counts[26 + ('l' as u8 - b'a') as usize], 3);
    assert_eq!(counts[26 + ('o' as u8 - b'a') as usize], 2);
    assert_eq!(counts.iter().sum::<usize>(), 10);
}

#[test]
fn chosen_fields_become_a_set() {
    let set = field_set(&vec![2, 0, 2, 5]);
    let mut got: Vec<usize> = set.into_iter().collect();
    got.sort();
    assert_eq!(got, vec![0, 2, 5]);
    assert!(field_set(&Vec::new()).is_empty());
}
