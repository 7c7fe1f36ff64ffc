use turbopipe::config::{parse_count, read_thread_count, DEFAULT_READ_THREADS};

#[test]
fn the_default_is_four_readers() {
    assert_eq!(DEFAULT_READ_THREADS, 4);
    assert_eq!(read_thread_count(None), 4);
    assert_eq!(read_thread_count(Some("")), 4);
    assert_eq!(read_thread_count(Some("many")), 4);
    assert_eq!(read_thread_count(Some("-2")), 4);
    assert_eq!(read_thread_count(Some(" 8")), 4);
    assert_eq!(read_thread_count(Some("8 ")), 4);
    assert_eq!(read_thread_count(Some("1_000")), 4);
}

#[test]
fn a_written_count_is_taken() {
    assert_eq!(read_thread_count(Some("1")), 1);
    assert_eq!(read_thread_count(Some("12")), 12);
    assert_eq!(read_thread_count(Some("+16")), 16);
    assert_eq!(read_thread_count(Some("0064")), 64);
    assert_eq!(read_thread_count(Some("0")), 0);
}

#[test]
fn counts_are_decimal_numbers_that_fit_the_word() {
    assert_eq!(parse_count("0"), Some(0));
    assert_eq!(parse_count("907"), Some(907));
    assert_eq!(parse_count("+"), None);
    assert_eq!(parse_count("++1"), None);
    assert_eq!(parse_count("+-1"), None);
    assert_eq!(parse_count("1+"), None);
    assert_eq!(parse_count("0x10"), None);
    assert_eq!(parse_count("\u{0663}"), None);
    let largest = usize::MAX.to_string();
    assert_eq!(parse_count(&largest), Some(usize::MAX));
    let too_large = format!("{}0", largest);
    assert_eq!(parse_count(&too_large), None);
    let one_more = format!("{}", usize::MAX as u128 + 1);
    assert_eq!(parse_count(&one_more), None);
    assert_eq!(read_thread_count(Some(one_more.as_str())), 4);
}

#[test]
fn counts_read_as_the_standard_parser_reads_them() {
    let samples = [
        "", "+", "-", "0", "00", "+0", "-0", "4", "+4", "-4", "42", "4 2", "4.2", "4e2", "९",
        "18446744073709551615", "18446744073709551616", "99999999999999999999999", "+007", "a1",
        "1a", "\t3", "3\n",
    ];
    for text in samples {
        assert_eq!(parse_count(text), text.parse::<usize>().ok(), "{:?}", text);
    }
}
