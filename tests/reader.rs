use rexpect::error::Error;
use rexpect::reader::{find, NBReader, ReadUntil, Regex, StreamEvent};
use rexpect::text::{char_index, decimal, escape_controls};

/// The events a source holding `text` produces: its bytes, then the end.
fn stream(text: &str) -> Vec<StreamEvent> {
    let mut events: Vec<StreamEvent> = text.bytes().map(StreamEvent::Byte).collect();
    events.push(StreamEvent::EOF);
    events
}

fn open(text: &str) -> (NBReader, Vec<StreamEvent>) {
    (NBReader::new(None), stream(text))
}

#[test]
fn test_expect_melon() {
    let (mut r, events) = open("a melon\r\n");
    assert_eq!(
        Some(("a melon".to_string(), "\r\n".to_string())),
        r.read_until(&ReadUntil::String("\r\n".to_string()), &events, 0)
            .expect("cannot read line")
    );
    // check for EOF
    match r.read_until(&ReadUntil::NBytes(10), &vec![], 0) {
        Ok(_) => panic!(),
        Err(Error::EOF { .. }) => {}
        Err(_) => panic!(),
    }
}

#[test]
fn test_regex() {
    let (mut r, events) = open("2014-03-15");
    let re = Regex::new(r"^\d{4}-\d{2}-\d{2}$").unwrap();
    assert_eq!(
        Some(("".to_string(), "2014-03-15".to_string())),
        r.read_until(&ReadUntil::Regex(re), &events, 0)
            .expect("regex doesn't match")
    );
}

#[test]
fn test_regex2() {
    let (mut r, events) = open("2014-03-15");
    let re = Regex::new(r"-\d{2}-").unwrap();
    assert_eq!(
        Some(("2014".to_string(), "-03-".to_string())),
        r.read_until(&ReadUntil::Regex(re), &events, 0)
            .expect("regex doesn't match")
    );
}

#[test]
fn test_nbytes() {
    let (mut r, events) = open("abcdef");
    assert_eq!(
        Some(("".to_string(), "ab".to_string())),
        r.read_until(&ReadUntil::NBytes(2), &events, 0).expect("2 bytes")
    );
    assert_eq!(
        Some(("".to_string(), "cde".to_string())),
        r.read_until(&ReadUntil::NBytes(3), &vec![], 0).expect("3 bytes")
    );
    assert_eq!(
        Some(("".to_string(), "f".to_string())),
        r.read_until(&ReadUntil::NBytes(4), &vec![], 0).expect("4 bytes")
    );
}

#[test]
fn test_any_with_multiple_possible_matches() {
    let (mut r, events) = open("zero one two three four five");
    let result = r
        .read_until(
            &ReadUntil::Any(vec![
                ReadUntil::String("two".to_string()),
                ReadUntil::String("one".to_string()),
            ]),
            &events,
            0,
        )
        .expect("finding string");
    assert_eq!(Some(("zero ".to_string(), "one".to_string())), result);
}

#[test]
fn test_any_with_same_start_different_length() {
    let (mut r, events) = open("hi hello");
    let result = r
        .read_until(
            &ReadUntil::Any(vec![
                ReadUntil::String("hello".to_string()),
                ReadUntil::String("hell".to_string()),
            ]),
            &events,
            0,
        )
        .expect("finding string");
    assert_eq!(Some(("hi ".to_string(), "hell".to_string())), result);
}

#[test]
fn test_eof() {
    let (mut r, events) = open("lorem ipsum dolor sit amet");
    r.read_until(&ReadUntil::NBytes(2), &events, 0).expect("2 bytes");
    assert_eq!(
        Some(("".to_string(), "rem ipsum dolor sit amet".to_string())),
        r.read_until(&ReadUntil::EOF, &vec![], 0).expect("reading until EOF")
    );
}

#[test]
fn test_try_read() {
    let (mut r, events) = open("lorem");
    let bytes = r.read_until(&ReadUntil::NBytes(4), &events, 0).unwrap().unwrap();
    assert!(bytes.0.is_empty());
    assert_eq!(bytes.1, "lore");
    assert_eq!(Some('m'), r.try_read(&vec![]));
    assert_eq!(None, r.try_read(&vec![]));
    assert_eq!(None, r.try_read(&vec![]));
    assert_eq!(None, r.try_read(&vec![]));
    assert_eq!(None, r.try_read(&vec![]));
}

#[test]
fn unique_literal_is_found_and_removed() {
    assert_eq!(Some((6, 9)), find(&ReadUntil::String("key".to_string()), "a lot key rest", false));
    let mut r = NBReader::new(None);
    let got = r
        .read_until(&ReadUntil::String("key".to_string()), &stream("a lot key rest"), 0)
        .unwrap();
    assert_eq!(Some(("a lot ".to_string(), "key".to_string())), got);
    assert_eq!(
        Some(("".to_string(), " rest".to_string())),
        r.read_until(&ReadUntil::EOF, &vec![], 0).unwrap()
    );
}

#[test]
fn literal_first_occurrence_wins() {
    assert_eq!(Some((1, 3)), find(&ReadUntil::String("ab".to_string()), "xabab", true));
    assert_eq!(None, find(&ReadUntil::String("abc".to_string()), "xabab", true));
    assert_eq!(Some((0, 0)), find(&ReadUntil::String("".to_string()), "xabab", false));
}

#[test]
fn byte_count_waits_for_enough_input() {
    assert_eq!(None, find(&ReadUntil::NBytes(5), "abc", false));
    assert_eq!(Some((0, 3)), find(&ReadUntil::NBytes(5), "abc", true));
    assert_eq!(Some((0, 2)), find(&ReadUntil::NBytes(2), "abc", false));
    assert_eq!(None, find(&ReadUntil::NBytes(5), "", true));
}

#[test]
fn end_pattern_needs_end_of_stream() {
    assert_eq!(None, find(&ReadUntil::EOF, "abc", false));
    assert_eq!(Some((0, 3)), find(&ReadUntil::EOF, "abc", true));
    assert_eq!(Some((0, 0)), find(&ReadUntil::EOF, "", true));
}

#[test]
fn alternatives_without_match_or_members() {
    assert_eq!(None, find(&ReadUntil::Any(vec![]), "abc", true));
    let nested = ReadUntil::Any(vec![
        ReadUntil::String("zz".to_string()),
        ReadUntil::Any(vec![ReadUntil::String("c".to_string()), ReadUntil::NBytes(2)]),
    ]);
    assert_eq!(Some((0, 2)), find(&nested, "abc", false));
}

#[test]
fn reads_after_end_pattern_fail_exhausted() {
    let (mut r, events) = open("rest");
    assert_eq!(
        Some(("".to_string(), "rest".to_string())),
        r.read_until(&ReadUntil::EOF, &events, 0).unwrap()
    );
    match r.read_until(&ReadUntil::NBytes(1), &vec![], 0) {
        Err(Error::EOF { expected, got, exit_code }) => {
            assert_eq!("reading 1 bytes", expected);
            assert_eq!("", got);
            assert_eq!(None, exit_code);
        }
        _ => panic!(),
    }
    match r.read_until(&ReadUntil::String("x".to_string()), &vec![], 0) {
        Err(Error::EOF { expected, .. }) => assert_eq!("\"x\"", expected),
        _ => panic!(),
    }
}

#[test]
fn try_read_keeps_stream_order_across_deliveries() {
    let mut r = NBReader::new(None);
    assert_eq!(None, r.try_read(&vec![]));
    assert_eq!(Some('a'), r.try_read(&vec![StreamEvent::Byte(b'a'), StreamEvent::Byte(b'b')]));
    assert_eq!(Some('b'), r.try_read(&vec![StreamEvent::Byte(b'c')]));
    assert_eq!(Some('c'), r.try_read(&vec![StreamEvent::EOF, StreamEvent::Byte(b'd')]));
    assert_eq!(Some('d'), r.try_read(&vec![StreamEvent::Byte(b'e')]));
    assert_eq!(None, r.try_read(&vec![StreamEvent::Byte(b'f')]));
    assert_eq!(None, r.try_read(&vec![]));
}

#[test]
fn waits_then_times_out() {
    let mut r = NBReader::new(Some(100));
    let needle = ReadUntil::String("never".to_string());
    assert_eq!(
        None,
        r.read_until(&needle, &vec![StreamEvent::Byte(b'a'), StreamEvent::Byte(b'\n')], 50).unwrap()
    );
    assert_eq!(None, r.read_until(&needle, &vec![StreamEvent::Byte(27)], 100).unwrap());
    match r.read_until(&needle, &vec![StreamEvent::Byte(b'\r')], 101) {
        Err(Error::Timeout { expected, got, timeout }) => {
            assert_eq!("\"never\"", expected);
            assert_eq!("a`\\n`\n`^``\\r`", got);
            assert_eq!(100, timeout);
        }
        _ => panic!(),
    }
}

#[test]
fn without_timeout_waits_forever() {
    let mut r = NBReader::new(None);
    let needle = ReadUntil::String("never".to_string());
    assert_eq!(None, r.read_until(&needle, &vec![StreamEvent::Byte(b'a')], u64::MAX).unwrap());
}

#[test]
fn hangup_error_ends_the_stream() {
    let mut r = NBReader::new(None);
    let events = vec![
        StreamEvent::Byte(b'x'),
        StreamEvent::IOError(Some(4)),
        StreamEvent::IOError(None),
        StreamEvent::Byte(b'y'),
    ];
    assert_eq!(None, r.read_until(&ReadUntil::EOF, &events, 0).unwrap());
    let events = vec![StreamEvent::IOError(Some(5)), StreamEvent::Byte(b'z')];
    let ended = r.read_until(&ReadUntil::EOF, &events, 0).unwrap();
    assert_eq!(Some(("".to_string(), "xyz".to_string())), ended);
    let mut r = NBReader::new(None);
    let events = vec![StreamEvent::Byte(b'x'), StreamEvent::Byte(b'y'), StreamEvent::IOError(Some(5)), StreamEvent::Byte(b'z')];
    assert_eq!(
        Some(("".to_string(), "xyz".to_string())),
        r.read_until(&ReadUntil::EOF, &events, 0).unwrap()
    );
    assert_eq!(None, r.try_read(&vec![StreamEvent::Byte(b'w')]));
}

#[test]
fn high_bytes_become_one_character_each() {
    let mut r = NBReader::new(None);
    let events = vec![StreamEvent::Byte(0xe9), StreamEvent::Byte(b'-'), StreamEvent::Byte(b'7'), StreamEvent::EOF];
    let re = Regex::new(r"\d").unwrap();
    assert_eq!(
        Some(("\u{e9}-".to_string(), "7".to_string())),
        r.read_until(&ReadUntil::Regex(re), &events, 0).unwrap()
    );
}

#[test]
fn regex_spans_count_characters() {
    let re = Regex::new(r"-\d{2}-").unwrap();
    assert_eq!(Some((2, 6)), find(&ReadUntil::Regex(re), "\u{e9}\u{e8}-03-15", false));
    let re = Regex::new(r"z").unwrap();
    assert_eq!(None, find(&ReadUntil::Regex(re), "abc", true));
    assert!(Regex::new(r"foo(bar").is_err());
    assert_eq!(r"\d+", Regex::new(r"\d+").unwrap().as_str());
}

#[test]
fn descriptions_name_the_pattern() {
    assert_eq!("\\n (newline)", ReadUntil::String("\n".to_string()).describe());
    assert_eq!("\\r (carriage return)", ReadUntil::String("\r".to_string()).describe());
    assert_eq!("EOF (End of File)", ReadUntil::EOF.describe());
    assert_eq!("reading 120 bytes", ReadUntil::NBytes(120).describe());
    assert_eq!("Regex: \"a+\"", ReadUntil::Regex(Regex::new("a+").unwrap()).describe());
    let any = ReadUntil::Any(vec![
        ReadUntil::String("ok".to_string()),
        ReadUntil::NBytes(0),
        ReadUntil::EOF,
    ]);
    assert_eq!("\"ok\", reading 0 bytes, EOF (End of File)", any.describe());
    assert_eq!("", ReadUntil::Any(vec![]).describe());
}

#[test]
fn text_helpers() {
    assert_eq!("0", decimal(0));
    assert_eq!("9", decimal(9));
    assert_eq!("10", decimal(10));
    assert_eq!("18446744073709551615", decimal(usize::MAX));
    assert_eq!("ab`\\r``\\n`\n", escape_controls(&vec!['a', 'b', '\r', '\n']));
    let chars = vec!['a', '\u{e9}', '\u{20ac}', 'b'];
    assert_eq!(Some(0), char_index(&chars, 0));
    assert_eq!(Some(1), char_index(&chars, 1));
    assert_eq!(None, char_index(&chars, 2));
    assert_eq!(Some(2), char_index(&chars, 3));
    assert_eq!(Some(3), char_index(&chars, 6));
    assert_eq!(Some(4), char_index(&chars, 7));
    assert_eq!(None, char_index(&chars, 8));
}
