use fors::procfile_parser::process_entries;
use fors::procfile_parser::valid_process_name;
use fors::procfile_parser::Error;
use fors::procfile_parser::ProcfileEntry;

fn entry(name: &str, command: &str) -> ProcfileEntry {
    ProcfileEntry { name: name.to_string(), command: command.to_string() }
}

#[test]
fn test_simple_command() {
    let input = b"test: command";
    let result = process_entries(input.as_ref());
    assert_eq!(
        result.unwrap(),
        vec![ProcfileEntry { name: "test".to_string(), command: "command".to_string() }]
    );
}

#[test]
fn test_multiple_commands() {
    let input = b"test: command\nhello: world\n";
    let result = process_entries(input.as_ref());
    println!("{:?}", result);
    assert_eq!(
        result.unwrap(),
        vec![
            ProcfileEntry { name: "test".to_string(), command: "command".to_string() },
            ProcfileEntry { name: "hello".to_string(), command: "world".to_string() },
        ]
    );
}

#[test]
fn two_entries_with_trailing_newline() {
    let result = process_entries(b"a: b\nc: d\n".as_ref());
    assert_eq!(result.unwrap(), vec![entry("a", "b"), entry("c", "d")]);
}

#[test]
fn two_entries_without_trailing_newline() {
    let result = process_entries(b"a: b\nc: d".as_ref());
    assert_eq!(result.unwrap(), vec![entry("a", "b"), entry("c", "d")]);
}

#[test]
fn no_space_after_colon() {
    let result = process_entries(b"a:b".as_ref());
    assert_eq!(result.unwrap(), vec![entry("a", "b")]);
}

#[test]
fn empty_input_fails() {
    let result = process_entries(b"".as_ref());
    assert!(matches!(result, Err(Error::Parsing)));
}

#[test]
fn missing_colon_fails() {
    let result = process_entries(b"1234\n".as_ref());
    assert!(matches!(result, Err(Error::Parsing)));
}

#[test]
fn trailing_garbage_fails_whole_parse() {
    let result = process_entries(b"a: b\ngarbage".as_ref());
    assert!(matches!(result, Err(Error::Parsing)));
}

#[test]
fn empty_command_is_allowed() {
    let result = process_entries(b"a:".as_ref());
    assert_eq!(result.unwrap(), vec![entry("a", "")]);
}

#[test]
fn extra_spaces_are_discarded() {
    let result = process_entries(b"a:   b c".as_ref());
    assert_eq!(result.unwrap(), vec![entry("a", "b c")]);
}

#[test]
fn crlf_line_endings_are_tolerated() {
    let result = process_entries(b"a: b\r\nc: d\r\n".as_ref());
    assert_eq!(result.unwrap(), vec![entry("a", "b"), entry("c", "d")]);
}

#[test]
fn bare_carriage_return_fails() {
    let result = process_entries(b"a: b\rc: d".as_ref());
    assert!(matches!(result, Err(Error::Parsing)));
}

#[test]
fn empty_line_between_entries_fails() {
    let result = process_entries(b"a: b\n\nc: d\n".as_ref());
    assert!(matches!(result, Err(Error::Parsing)));
}

#[test]
fn name_with_underscore_and_digits() {
    let result = process_entries(b"web_1: run".as_ref());
    assert_eq!(result.unwrap(), vec![entry("web_1", "run")]);
}

#[test]
fn duplicate_names_are_kept_in_order() {
    let result = process_entries(b"a: one\na: two\n".as_ref());
    assert_eq!(result.unwrap(), vec![entry("a", "one"), entry("a", "two")]);
}

#[test]
fn utf8_command_is_decoded() {
    let result = process_entries(b"a: caf\xc3\xa9".as_ref());
    assert_eq!(result.unwrap(), vec![entry("a", "caf\u{e9}")]);
}

#[test]
fn invalid_utf8_command_fails() {
    let result = process_entries(b"a: \xff\xfe".as_ref());
    assert!(matches!(result, Err(Error::Parsing)));
}

#[test]
fn round_trip_of_joined_lines() {
    let pairs = [("web", "echo hi"), ("worker", "sleep 1"), ("w2", "true")];
    let text = pairs
        .iter()
        .map(|(n, c)| format!("{}: {}", n, c))
        .collect::<Vec<_>>()
        .join("\n");
    let result = process_entries(text.as_bytes()).unwrap();
    let expect: Vec<ProcfileEntry> = pairs.iter().map(|(n, c)| entry(n, c)).collect();
    assert_eq!(result, expect);
}

#[test]
fn valid_process_name_accepts_name_bytes() {
    assert!(valid_process_name(b'a'));
    assert!(valid_process_name(b'Z'));
    assert!(valid_process_name(b'0'));
    assert!(valid_process_name(b'_'));
    assert!(!valid_process_name(b':'));
    assert!(!valid_process_name(b' '));
    assert!(!valid_process_name(b'-'));
    assert!(!valid_process_name(b'\n'));
}

#[test]
fn hyphen_in_name_fails() {
    let result = process_entries(b"a-b: x".as_ref());
    assert!(matches!(result, Err(Error::Parsing)));
}

#[test]
fn uppercase_name_is_accepted() {
    let result = process_entries(b"WEB: run".as_ref());
    assert_eq!(result.unwrap(), vec![entry("WEB", "run")]);
}

#[test]
fn io_error_converts_to_io_variant() {
    let e = Error::from(std::io::Error::new(std::io::ErrorKind::NotFound, "gone"));
    assert!(matches!(e, Error::Io(_)));
}
