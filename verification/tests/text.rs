use staff_lang::text::{find_run_end, parse_decimal, same_bytes, slice_between, Run};

#[test]
fn a_run_ends_at_the_first_byte_of_another_kind() {
    let bytes = b"123abc \"q\"";
    assert_eq!(find_run_end(bytes, 0, Run::Digits), 3);
    assert_eq!(find_run_end(bytes, 3, Run::Digits), 3);
    assert_eq!(find_run_end(bytes, 0, Run::Word), 6);
    assert_eq!(find_run_end(bytes, 6, Run::Word), 6);
    assert_eq!(find_run_end(bytes, 0, Run::Quoted), 7);
    assert_eq!(find_run_end(bytes, 8, Run::Quoted), 9);
    assert_eq!(find_run_end(bytes, 7, Run::Quoted), 7);
}

#[test]
fn a_run_may_reach_the_end_of_the_text() {
    assert_eq!(find_run_end(b"42", 0, Run::Digits), 2);
    assert_eq!(find_run_end(b"word", 1, Run::Word), 4);
    assert_eq!(find_run_end(b"open", 0, Run::Quoted), 4);
    assert_eq!(find_run_end(b"", 0, Run::Word), 0);
    assert_eq!(find_run_end(b"abc", 3, Run::Word), 3);
}

#[test]
fn the_kinds_of_runs_tell_bytes_apart() {
    for b in 0u8..=255 {
        assert_eq!(Run::Digits.accepts(b), b.is_ascii_digit(), "{}", b);
        assert_eq!(
            Run::Word.accepts(b),
            !matches!(b, b' ' | b'\t' | b'\n' | b'\r' | b'(' | b')' | b'{' | b'}' | b';' | b','),
            "{}",
            b
        );
        assert_eq!(Run::Quoted.accepts(b), b != b'"', "{}", b);
    }
}

#[test]
fn digits_are_read_as_a_number_of_32_bits() {
    assert_eq!(parse_decimal(b"x120y", 1, 4), Some(120));
    assert_eq!(parse_decimal(b"007", 0, 3), Some(7));
    assert_eq!(parse_decimal(b"0", 0, 1), Some(0));
    assert_eq!(parse_decimal(b"5", 0, 0), Some(0));
    assert_eq!(parse_decimal(b"4294967295", 0, 10), Some(u32::MAX));
    assert_eq!(parse_decimal(b"4294967296", 0, 10), None);
    assert_eq!(parse_decimal(b"4294967295", 0, 9), Some(429496729));
    assert_eq!(parse_decimal(b"00000000004294967295", 0, 20), Some(u32::MAX));
    assert_eq!(parse_decimal(b"99999999999999999999999999", 0, 26), None);
}

#[test]
fn byte_strings_are_compared_byte_by_byte() {
    assert!(same_bytes(b"", b""));
    assert!(same_bytes(b"meta", b"meta"));
    assert!(!same_bytes(b"meta", b"metb"));
    assert!(!same_bytes(b"meta", b"met"));
    assert!(!same_bytes(b"", b"a"));
}

#[test]
fn a_slice_between_two_offsets() {
    let text = "caf\u{e9} au lait";
    assert_eq!(slice_between(text, 0, 0), "");
    assert_eq!(slice_between(text, 0, 5), "caf\u{e9}");
    assert_eq!(slice_between(text, 6, 8), "au");
    assert_eq!(slice_between(text, 9, text.len()), "lait");
    assert_eq!(slice_between(text, text.len(), text.len()), "");
    assert_eq!(slice_between(text, 0, text.len()), text);
}
