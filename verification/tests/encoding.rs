use erasure_code::encoder::{coefficients, THRESHOLD};
use erasure_code::{encode, erasure_coding, eval, CodingError};

#[test]
fn eval_gives_the_bytes_of_the_message() {
    assert_eq!(eval("Hi"), vec![72u8, 105]);
    assert_eq!(eval(""), Vec::<u8>::new());
    assert_eq!(eval("\u{e9}"), vec![0xc3u8, 0xa9]);
}

#[test]
fn coefficients_are_the_byte_values() {
    assert_eq!(coefficients(&[0, 1, 72, 255]), vec![0u128, 1, 72, 255]);
    assert_eq!(coefficients(&[]), Vec::<u128>::new());
}

#[test]
fn default_ratio_is_thirty_percent() {
    assert_eq!(THRESHOLD, 30);
    assert_eq!(erasure_coding("Hello"), encode(b"Hello", 30));
}

#[test]
fn hi_is_encoded_at_three_positions() {
    let word = erasure_coding("Hi").unwrap();
    assert_eq!(word, vec![(1u64, 177u128), (2, 282), (3, 387)]);
}

#[test]
fn hello_is_encoded_at_seven_positions() {
    let word = erasure_coding("Hello").unwrap();
    assert_eq!(
        word,
        vec![
            (1u64, 500u128),
            (2, 3346),
            (3, 13254),
            (4, 37532),
            (5, 86152),
            (6, 171750),
            (7, 309626)
        ]
    );
}

#[test]
fn parity_count_rounds_up() {
    assert_eq!(encode(b"Rust", 30).unwrap().len(), 6);
    assert_eq!(encode(b"abcdefghi", 30).unwrap().len(), 12);
    assert_eq!(encode(b"Propagated", 30).unwrap().len(), 13);
    assert_eq!(encode(b"a", 1).unwrap().len(), 2);
    assert_eq!(encode(b"abcd", 25).unwrap().len(), 5);
    assert_eq!(encode(b"abcd", 26).unwrap().len(), 6);
    assert_eq!(encode(b"abcd", 99).unwrap().len(), 8);
}

#[test]
fn zero_ratio_adds_no_parity() {
    assert_eq!(encode(b"Hi", 0).unwrap(), vec![(1u64, 177u128), (2, 282)]);
}

#[test]
fn empty_message_gives_empty_codeword() {
    assert_eq!(encode(b"", 30).unwrap(), Vec::<(u64, u128)>::new());
    assert_eq!(erasure_coding("").unwrap(), Vec::<(u64, u128)>::new());
}

#[test]
fn codeword_is_at_least_as_long_as_the_message() {
    for ratio in 0..100 {
        let word = encode(b"redundancy", ratio).unwrap();
        assert!(word.len() >= 10);
        assert!(word.len() <= 20);
        for (i, point) in word.iter().enumerate() {
            assert_eq!(point.0, i as u64 + 1);
        }
    }
}

#[test]
fn encoding_is_deterministic() {
    assert_eq!(encode(b"same input", 40), encode(b"same input", 40));
}

#[test]
fn ratio_out_of_range_is_refused() {
    assert_eq!(encode(b"Hi", -1), Err(CodingError::InvalidConfiguration));
    assert_eq!(encode(b"Hi", 100), Err(CodingError::InvalidConfiguration));
    assert_eq!(encode(b"Hi", 250), Err(CodingError::InvalidConfiguration));
    assert_eq!(encode(b"Hi", i32::MIN), Err(CodingError::InvalidConfiguration));
    assert_eq!(encode(b"", 100), Err(CodingError::InvalidConfiguration));
    assert!(encode(b"Hi", 99).is_ok());
    assert!(encode(b"Hi", 0).is_ok());
}

#[test]
fn values_beyond_128_bits_are_refused() {
    let longest = [255u8; 24];
    assert_eq!(encode(&longest, 30).unwrap().len(), 32);
    let too_long = [255u8; 25];
    assert_eq!(encode(&too_long, 30), Err(CodingError::Overflow));
    // Leading zero coefficients do not make the values larger.
    let mut padded = [0u8; 40];
    padded[0] = 7;
    let word = encode(&padded, 30).unwrap();
    assert_eq!(word.len(), 52);
    assert!(word.iter().all(|p| p.1 == 7));
}
