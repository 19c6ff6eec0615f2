use aoc_puzzles::cheatsheet::{add_sth, refs, strings, vectors, Pan};
use aoc_puzzles::decimal::{int_to_chars, parse_i128, parse_i32, parse_i64, parse_usize};
use aoc_puzzles::text::{
    char_is_space, chars_of, positions_of, push_chars, replace_char, split_ascii_words, split_char, split_words,
    string_of, trim_chars,
};
use aoc_puzzles::utils::{num_list_to_big_num, BigNumError};

fn cs(s: &str) -> Vec<char> {
    s.chars().collect()
}

#[test]
fn numbers_joined_into_one() {
    assert_eq!(num_list_to_big_num(&[1, 2, 3]), Ok(123));
    assert_eq!(num_list_to_big_num(&[9, 8, 7, 6, 5, 4, 3, 2, 1, 1, 1, 1]), Ok(987654321111));
    assert_eq!(num_list_to_big_num(&[12, 0, 34]), Ok(12034));
    assert_eq!(num_list_to_big_num(&[-1, 2]), Ok(-12));
}

#[test]
fn joined_numbers_errors() {
    assert_eq!(num_list_to_big_num(&[]), Err(BigNumError::Empty));
    assert_eq!(num_list_to_big_num(&[1, -2]), Err(BigNumError::InvalidDigit));
    assert_eq!(num_list_to_big_num(&[i32::MAX; 5]), Err(BigNumError::PosOverflow));
}

#[test]
fn joined_numbers_overflow_kinds() {
    assert_eq!(num_list_to_big_num(&[9; 39]), Err(BigNumError::PosOverflow));
    assert_eq!(num_list_to_big_num(&[9; 38]), Ok(99999999999999999999999999999999999999));
    let mut neg = vec![-1];
    neg.extend([9; 39]);
    assert_eq!(num_list_to_big_num(&neg), Err(BigNumError::NegOverflow));
    let mut late_sign = vec![9; 40];
    late_sign.push(-1);
    assert_eq!(num_list_to_big_num(&late_sign), Err(BigNumError::PosOverflow));
    let mut early_sign = vec![9; 3];
    early_sign.push(-1);
    early_sign.extend([9; 40]);
    assert_eq!(num_list_to_big_num(&early_sign), Err(BigNumError::InvalidDigit));
    assert_eq!(num_list_to_big_num(&[-170141183, 460469231, 731687303, 715884105, 728]), Ok(i128::MIN));
    assert_eq!(num_list_to_big_num(&[170141183, 460469231, 731687303, 715884105, 728]), Err(BigNumError::PosOverflow));
    let text: String = [9i32; 5].iter().map(|i| i.to_string()).collect::<String>() + "-";
    assert_eq!(text.parse::<i128>().unwrap_err().kind(), &std::num::IntErrorKind::InvalidDigit);
}

#[test]
fn joined_digit_lists_shift_and_add() {
    let a = [1, 2, 3];
    let b = [4, 0, 5, 6];
    let joined: Vec<i32> = a.iter().chain(b.iter()).copied().collect();
    assert_eq!(
        num_list_to_big_num(&joined),
        Ok(num_list_to_big_num(&a).unwrap() * 10i128.pow(b.len() as u32) + num_list_to_big_num(&b).unwrap())
    );
}

#[test]
fn integers_are_read_as_from_str_does() {
    assert_eq!(parse_i64(&cs("-42")), Some(-42));
    assert_eq!(parse_i64(&cs("+7")), Some(7));
    assert_eq!(parse_i64(&cs("9223372036854775807")), Some(i64::MAX));
    assert_eq!(parse_i64(&cs("9223372036854775808")), None);
    assert_eq!(parse_i64(&cs("")), None);
    assert_eq!(parse_i64(&cs("-")), None);
    assert_eq!(parse_i64(&cs(" 1")), None);
    assert_eq!(parse_i32(&cs("2147483648")), None);
    assert_eq!(parse_i32(&cs("-2147483648")), Some(i32::MIN));
    assert_eq!(parse_i128(&cs("007")), Some(7));
    assert_eq!(parse_usize(&cs("-0")), None);
    assert_eq!(parse_usize(&cs("+12")), Some(12));
}

#[test]
fn integers_are_written_as_display_does() {
    assert_eq!(int_to_chars(0), cs("0"));
    assert_eq!(int_to_chars(-45), cs("-45"));
    assert_eq!(int_to_chars(i128::MIN), cs(&i128::MIN.to_string()));
}

#[test]
fn text_helpers() {
    assert_eq!(chars_of("ab c"), cs("ab c"));
    assert!(char_is_space('\t') && char_is_space('\u{3000}') && !char_is_space('x'));
    assert_eq!(trim_chars(&cs("  a b \n")), cs("a b"));
    assert_eq!(split_words(&cs(" a  bc\u{a0}d ")), vec![cs("a"), cs("bc"), cs("d")]);
    assert_eq!(split_ascii_words(&cs(" a  bc\u{a0}d ")), vec![cs("a"), cs("bc\u{a0}d")]);
    assert_eq!(split_char(&cs("1,,2,"), ','), vec![cs("1"), cs(""), cs("2"), cs("")]);
    assert_eq!(split_char(&cs(""), ','), vec![cs("")]);
    assert_eq!(replace_char(&cs("a.S.S"), 'S', '|'), cs("a.|.|"));
    assert_eq!(positions_of(&cs("|.||"), '|'), vec![0, 2, 3]);
    let mut s = String::from("ab");
    push_chars(&mut s, &['c', 'ä']);
    assert_eq!(s, "abcä");
    assert_eq!(string_of(&cs("xyz")), "xyz");
}

#[test]
fn cheatsheet_vectors() {
    let v = vectors();
    assert_eq!(v.vec1, vec![1, 2, 3]);
    assert_eq!(v.vec2, vec![3, 4, 5, 6, 7]);
    assert_eq!(v.vec11, vec![1, 2, 3, 13]);
    assert_eq!((v.len, v.len_minus_seven, v.len_saturating), (4, -3, 0));
    assert_eq!(v.vec3.len(), 5);
    for (i, p) in v.vec3.iter().enumerate() {
        match p {
            Pan::A(s) => assert_eq!(s, &format!("test {}", i)),
            Pan::B(_) => panic!("expected text"),
        }
    }
}

#[test]
fn cheatsheet_append_and_strings() {
    let mut v = vec![1];
    add_sth(&mut v, 2);
    assert_eq!(v, vec![1, 2]);
    assert!(!refs());
    assert_eq!(strings(), (".....|.....".to_string(), vec![5]));
}
