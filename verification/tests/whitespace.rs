use minify_attr::bytes::{is_digit, is_whitespace};
use minify_attr::whitespace::{collapse_whitespace, left_trim, right_trim};

fn after(f: fn(&mut Vec<u8>), input: &[u8]) -> Vec<u8> {
    let mut val = input.to_vec();
    f(&mut val);
    val
}

#[test]
fn whitespace_is_five_bytes() {
    let blanks: Vec<u8> = (0..=255u8).filter(|&b| is_whitespace(b)).collect();
    assert_eq!(blanks, vec![0x09, 0x0a, 0x0c, 0x0d, 0x20]);
}

#[test]
fn digits_are_zero_to_nine() {
    let digits: Vec<u8> = (0..=255u8).filter(|&b| is_digit(b)).collect();
    assert_eq!(digits, b"0123456789".to_vec());
}

#[test]
fn left_trim_removes_leading_whitespace_only() {
    assert_eq!(after(left_trim, b" \t\n\x0c\ra b "), b"a b ".to_vec());
    assert_eq!(after(left_trim, b"a "), b"a ".to_vec());
    assert_eq!(after(left_trim, b"   "), Vec::<u8>::new());
    assert_eq!(after(left_trim, b""), Vec::<u8>::new());
}

#[test]
fn right_trim_removes_trailing_whitespace_only() {
    assert_eq!(after(right_trim, b" a b \t\n\x0c\r"), b" a b".to_vec());
    assert_eq!(after(right_trim, b" a"), b" a".to_vec());
    assert_eq!(after(right_trim, b" \n "), Vec::<u8>::new());
    assert_eq!(after(right_trim, b""), Vec::<u8>::new());
}

#[test]
fn a_run_of_whitespace_becomes_one_space() {
    assert_eq!(after(collapse_whitespace, b"a \t\n b"), b"a b".to_vec());
    assert_eq!(after(collapse_whitespace, b"a\tb"), b"a b".to_vec());
    assert_eq!(after(collapse_whitespace, b"\n\na  b\r\n"), b" a b ".to_vec());
    assert_eq!(after(collapse_whitespace, b"ab"), b"ab".to_vec());
    assert_eq!(after(collapse_whitespace, b""), Vec::<u8>::new());
}

#[test]
fn byte_eleven_is_no_whitespace() {
    assert_eq!(after(collapse_whitespace, b"a\x0b\x0bb"), b"a\x0b\x0bb".to_vec());
    assert_eq!(after(left_trim, b"\x0ba"), b"\x0ba".to_vec());
}
