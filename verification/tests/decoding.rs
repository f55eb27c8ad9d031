use processes::decimal::{chars_of, parse_u64, push_decimal};
use processes::error::ParseError;
use processes::record::{decode, encode, push_record};
use processes::sampler::ProcessesRaw;
use processes::snapshot::{Processes, SampleEntry};

fn sample(name: &str, pid: u64, cpu_time: u64) -> SampleEntry {
    SampleEntry { name: name.to_string(), pid, cpu_time }
}

fn number(text: &str) -> Option<u64> {
    parse_u64(&chars_of(text))
}

fn digits(value: u64) -> String {
    let mut text = String::new();
    push_decimal(&mut text, value);
    text
}

#[test]
fn lines_decode_to_samples_in_order() {
    assert_eq!(
        decode("init;1;42\nkthreadd;2;7\n"),
        Ok(vec![sample("init", 1, 42), sample("kthreadd", 2, 7)])
    );
}

#[test]
fn an_empty_text_has_no_samples() {
    assert_eq!(decode(""), Ok(Vec::new()));
}

#[test]
fn the_last_line_needs_no_line_feed() {
    assert_eq!(decode("a;1;2\nb;3;4"), Ok(vec![sample("a", 1, 2), sample("b", 3, 4)]));
}

#[test]
fn a_carriage_return_before_the_line_feed_ends_the_line() {
    assert_eq!(decode("a;1;2\r\nb;3;4\r\n"), Ok(vec![sample("a", 1, 2), sample("b", 3, 4)]));
}

#[test]
fn a_carriage_return_without_a_line_feed_is_part_of_the_field() {
    assert_eq!(decode("a;1;2\r"), Err(ParseError::MalformedRecord));
}

#[test]
fn fields_after_the_third_are_ignored() {
    assert_eq!(decode("a;1;2;whatever;9\n"), Ok(vec![sample("a", 1, 2)]));
}

#[test]
fn a_name_may_be_empty_or_hold_spaces() {
    assert_eq!(decode(";1;2\nmy app;3;4\n"), Ok(vec![sample("", 1, 2), sample("my app", 3, 4)]));
}

#[test]
fn a_name_beyond_ascii_is_kept() {
    assert_eq!(decode("caf\u{e9};1;2\n"), Ok(vec![sample("caf\u{e9}", 1, 2)]));
}

#[test]
fn a_line_with_fewer_than_three_fields_is_malformed() {
    assert_eq!(decode("a;1\n"), Err(ParseError::MalformedRecord));
    assert_eq!(decode("a\n"), Err(ParseError::MalformedRecord));
    assert_eq!(decode("\n"), Err(ParseError::MalformedRecord));
    assert_eq!(decode("a;1;2\n\nb;3;4\n"), Err(ParseError::MalformedRecord));
}

#[test]
fn a_pid_that_is_no_number_is_malformed() {
    assert_eq!(decode("a;one;2\n"), Err(ParseError::MalformedRecord));
    assert_eq!(decode("a;;2\n"), Err(ParseError::MalformedRecord));
    assert_eq!(decode("a;-1;2\n"), Err(ParseError::MalformedRecord));
    assert_eq!(decode("a; 1;2\n"), Err(ParseError::MalformedRecord));
}

#[test]
fn a_tick_count_that_is_no_number_is_malformed() {
    assert_eq!(decode("a;1;two\n"), Err(ParseError::MalformedRecord));
    assert_eq!(decode("a;1;\n"), Err(ParseError::MalformedRecord));
    assert_eq!(decode("a;1;2.5\n"), Err(ParseError::MalformedRecord));
}

#[test]
fn one_malformed_line_invalidates_the_whole_text() {
    assert_eq!(decode("a;1;2\nb;x;4\nc;5;6\n"), Err(ParseError::MalformedRecord));
}

#[test]
fn a_number_may_have_a_plus_sign_and_leading_zeros() {
    assert_eq!(number("+17"), Some(17));
    assert_eq!(number("0017"), Some(17));
    assert_eq!(number("0"), Some(0));
    assert_eq!(number("+"), None);
    assert_eq!(number(""), None);
    assert_eq!(number("++1"), None);
    assert_eq!(number("1+"), None);
    assert_eq!(number("12a"), None);
}

#[test]
fn a_number_must_fit_in_64_bits() {
    assert_eq!(number("18446744073709551615"), Some(u64::MAX));
    assert_eq!(number("18446744073709551616"), None);
    assert_eq!(number("99999999999999999999"), None);
    assert_eq!(number("184467440737095516150"), None);
    assert_eq!(decode("a;1;18446744073709551616\n"), Err(ParseError::MalformedRecord));
}

#[test]
fn numbers_are_written_without_leading_zeros() {
    assert_eq!(digits(0), "0");
    assert_eq!(digits(7), "7");
    assert_eq!(digits(10), "10");
    assert_eq!(digits(1_234_567_890), "1234567890");
    assert_eq!(digits(u64::MAX), "18446744073709551615");
}

#[test]
fn written_numbers_read_back() {
    for value in [0, 1, 9, 10, 99, 100, 4_294_967_296, u64::MAX - 1, u64::MAX] {
        assert_eq!(number(&digits(value)), Some(value));
    }
}

#[test]
fn the_characters_of_a_text_are_its_code_points() {
    assert_eq!(chars_of("a;\u{e9}\n"), vec!['a', ';', '\u{e9}', '\n']);
    assert_eq!(chars_of(""), Vec::<char>::new());
}

#[test]
fn a_record_is_appended_as_one_line() {
    let mut text = "x;1;1\n".to_string();
    push_record(&mut text, &sample("init", 1, 42));
    assert_eq!(text, "x;1;1\ninit;1;42\n");
}

#[test]
fn samples_are_written_one_line_each() {
    assert_eq!(encode(&vec![sample("init", 1, 42), sample("sh", 20, 0)]), "init;1;42\nsh;20;0\n");
    assert_eq!(encode(&Vec::new()), "");
}

#[test]
fn written_samples_read_back() {
    let entries = vec![
        sample("init", 1, 42),
        sample("", 0, 0),
        sample("kworker/0:1-events", 4_194_304, u64::MAX),
        sample("caf\u{e9} \r", 9, 10),
        sample("init", 2, 43),
    ];
    assert_eq!(decode(&encode(&entries)), Ok(entries));
}

#[test]
fn a_name_with_a_semicolon_does_not_read_back() {
    let entries = vec![sample("a;b", 1, 2)];
    assert_eq!(decode(&encode(&entries)), Err(ParseError::MalformedRecord));
    let entries = vec![sample("a;7", 1, 2)];
    assert_eq!(decode(&encode(&entries)), Ok(vec![sample("a", 7, 1)]));
}

#[test]
fn a_stored_snapshot_is_decoded_with_its_time() {
    let raw = ProcessesRaw { time: 1_700_000_000, ticks_per_second: 100, data: "a;1;2\n".to_string() };
    let processed = Processes::new().process_raw_data(raw).unwrap();
    assert_eq!(processed.time, 1_700_000_000);
    assert_eq!(processed.entries, vec![sample("a", 1, 2)]);
}

#[test]
fn a_stored_snapshot_with_a_malformed_line_is_rejected() {
    let raw = ProcessesRaw { time: 5, ticks_per_second: 100, data: "a;1;2\nb;pid;3\n".to_string() };
    assert_eq!(Processes::new().process_raw_data(raw).unwrap_err(), ParseError::MalformedRecord);
}
