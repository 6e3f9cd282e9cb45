use file_lines::emit::include_lines;
use file_lines::emit::include_lines_s;
use file_lines::text::count_lines;
use file_lines::text::get_lines;

#[test]
fn four_lines_scenario() {
    let bytes: Vec<u8> = b"these\nare\nfile\nlines\n".to_vec();
    let lines = get_lines(&bytes);
    let borrowed = include_lines(&lines);
    assert_eq!(borrowed, vec!["these", "are", "file", "lines"]);
    assert_eq!(count_lines(&bytes), 4);
}

#[test]
fn owned_matches_borrowed() {
    let bytes: Vec<u8> = b"these\nare\nfile\nlines\n".to_vec();
    let lines = get_lines(&bytes);
    let borrowed = include_lines(&lines);
    let owned = include_lines_s(&lines);
    assert_eq!(borrowed.len(), owned.len());
    for i in 0..borrowed.len() {
        assert_eq!(borrowed[i], owned[i].as_str());
    }
}

#[test]
fn array_lengths_match_count() {
    let inputs: Vec<Vec<u8>> = vec![
        b"".to_vec(),
        b"one\n".to_vec(),
        b"one\ntwo".to_vec(),
        b"a\n\nb\n".to_vec(),
    ];
    for bytes in &inputs {
        let lines = get_lines(bytes);
        assert_eq!(include_lines(&lines).len(), count_lines(bytes));
        assert_eq!(include_lines_s(&lines).len(), count_lines(bytes));
    }
}

#[test]
fn empty_file_yields_nothing() {
    let bytes: Vec<u8> = Vec::new();
    let lines = get_lines(&bytes);
    assert_eq!(lines.len(), 0);
    assert_eq!(include_lines(&lines).len(), 0);
    assert_eq!(count_lines(&bytes), 0);
}

#[test]
fn unterminated_last_line_kept() {
    let bytes: Vec<u8> = b"a\nb".to_vec();
    assert_eq!(get_lines(&bytes), vec!["a".to_string(), "b".to_string()]);
    assert_eq!(count_lines(&bytes), 2);
}

#[test]
fn trailing_newline_no_phantom_line() {
    let bytes: Vec<u8> = b"a\n".to_vec();
    assert_eq!(get_lines(&bytes), vec!["a".to_string()]);
    assert_eq!(count_lines(&bytes), 1);
}

#[test]
fn undecodable_line_silently_skipped() {
    let bytes: Vec<u8> = b"ok\n\xff\xfe\nalso\n".to_vec();
    assert_eq!(get_lines(&bytes), vec!["ok".to_string(), "also".to_string()]);
    assert_eq!(count_lines(&bytes), 2);
}

#[test]
fn crlf_terminator_stripped() {
    let bytes: Vec<u8> = b"a\r\nb\r\n".to_vec();
    assert_eq!(get_lines(&bytes), vec!["a".to_string(), "b".to_string()]);
}

#[test]
fn lone_carriage_return_kept() {
    let bytes: Vec<u8> = b"a\rb\n".to_vec();
    assert_eq!(get_lines(&bytes), vec!["a\rb".to_string()]);
    let unterminated: Vec<u8> = b"x\r".to_vec();
    assert_eq!(get_lines(&unterminated), vec!["x\r".to_string()]);
}

#[test]
fn empty_line_in_middle_kept() {
    let bytes: Vec<u8> = b"a\n\nb\n".to_vec();
    assert_eq!(
        get_lines(&bytes),
        vec!["a".to_string(), "".to_string(), "b".to_string()]
    );
    assert_eq!(count_lines(&bytes), 3);
}

#[test]
fn multibyte_text_decoded_intact() {
    let mut bytes: Vec<u8> = "h\u{e9}llo".as_bytes().to_vec();
    bytes.push(b'\n');
    assert_eq!(get_lines(&bytes), vec!["h\u{e9}llo".to_string()]);
    assert_eq!(count_lines(&bytes), 1);
}
