use fnum::digits::chars_of;
use fnum::digits::count_digits;
use fnum::digits::decimal_string;
use fnum::digits::read_number;
use fnum::digits::zero_padded_string;
use fnum::digits::DigitsError;

fn read(text: &str) -> Result<usize, DigitsError> {
    let chars: Vec<char> = text.chars().collect();
    read_number(&chars, chars.len())
}

#[test]
fn count_digits_values() {
    assert_eq!(count_digits(0), 1);
    assert_eq!(count_digits(9), 1);
    assert_eq!(count_digits(10), 2);
    assert_eq!(count_digits(99), 2);
    assert_eq!(count_digits(100), 3);
    assert_eq!(count_digits(18446744073709551615), 20);
    assert_eq!(count_digits(18446744073709551616), 20);
    assert_eq!(count_digits(u128::MAX), 39);
}

#[test]
fn decimal_string_values() {
    assert_eq!(decimal_string(0), "0");
    assert_eq!(decimal_string(7), "7");
    assert_eq!(decimal_string(10), "10");
    assert_eq!(decimal_string(1234567890), "1234567890");
    assert_eq!(decimal_string(usize::MAX), usize::MAX.to_string());
}

#[test]
fn zero_padded_string_values() {
    assert_eq!(zero_padded_string(7, 3), "007");
    assert_eq!(zero_padded_string(7, 1), "7");
    assert_eq!(zero_padded_string(7, 0), "7");
    assert_eq!(zero_padded_string(0, 4), "0000");
    assert_eq!(zero_padded_string(1234, 2), "1234");
    assert_eq!(zero_padded_string(1234, 4), "1234");
    assert_eq!(zero_padded_string(1234, 5), "01234");
}

#[test]
fn read_number_values() {
    assert_eq!(read("0"), Ok(0));
    assert_eq!(read("007"), Ok(7));
    assert_eq!(read("120"), Ok(120));
    assert_eq!(read(&usize::MAX.to_string()), Ok(usize::MAX));
    assert_eq!(read(&format!("000{}", usize::MAX)), Ok(usize::MAX));
}

#[test]
fn read_number_errors() {
    assert_eq!(read(""), Err(DigitsError::Empty));
    assert_eq!(read("12a"), Err(DigitsError::InvalidDigit));
    assert_eq!(read("+12"), Err(DigitsError::InvalidDigit));
    assert_eq!(read("-1"), Err(DigitsError::InvalidDigit));
    assert_eq!(read("1 "), Err(DigitsError::InvalidDigit));
    assert_eq!(read("１２"), Err(DigitsError::InvalidDigit));
    let over = format!("{}", usize::MAX as u128 + 1);
    assert_eq!(read(&over), Err(DigitsError::Overflow));
    assert_eq!(read(&format!("{}a", over)), Err(DigitsError::InvalidDigit));
}

#[test]
fn read_number_takes_a_prefix() {
    let chars: Vec<char> = "12_rest".chars().collect();
    assert_eq!(read_number(&chars, 2), Ok(12));
    assert_eq!(read_number(&chars, 1), Ok(1));
    assert_eq!(read_number(&chars, 0), Err(DigitsError::Empty));
    assert_eq!(read_number(&chars, 3), Err(DigitsError::InvalidDigit));
}

#[test]
fn chars_of_text() {
    assert_eq!(chars_of("a_é"), vec!['a', '_', 'é']);
    assert!(chars_of("").is_empty());
}
