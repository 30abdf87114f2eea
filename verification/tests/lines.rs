use rehash::lines::{frame_line, split_lines};

fn lines(text: &str) -> Vec<String> {
    split_lines(text.as_bytes())
        .into_iter()
        .map(|line| String::from_utf8(line).unwrap())
        .collect()
}

#[test]
fn lines_end_at_newlines() {
    assert_eq!(lines("a\nbc\n"), vec!["a", "bc"]);
    assert_eq!(lines("a\nbc"), vec!["a", "bc"]);
    assert_eq!(lines("abc"), vec!["abc"]);
    assert_eq!(lines(""), Vec::<String>::new());
}

#[test]
fn empty_lines_are_lines() {
    assert_eq!(lines("\n"), vec![""]);
    assert_eq!(lines("\n\na\n\n"), vec!["", "", "a", ""]);
}

#[test]
fn a_carriage_return_before_a_newline_is_dropped() {
    assert_eq!(lines("a\r\nb\r\n"), vec!["a", "b"]);
    assert_eq!(lines("a\r\r\n"), vec!["a\r"]);
    assert_eq!(lines("\r\n"), vec![""]);
    assert_eq!(lines("a\rb\n"), vec!["a\rb"]);
    assert_eq!(lines("a\r"), vec!["a\r"]);
}

#[test]
fn bytes_that_are_no_text_stay_in_their_line() {
    let split = split_lines(&[0xff, 10, 0xc3, 0x28, 10, b'x']);
    assert_eq!(split, vec![vec![0xff], vec![0xc3, 0x28], vec![b'x']]);
}

#[test]
fn a_framed_line_ends_with_a_newline() {
    assert_eq!(frame_line(b"abc"), b"abc\n".to_vec());
    assert_eq!(frame_line(b""), b"\n".to_vec());
}

#[test]
fn framed_lines_are_read_back() {
    let mut log = Vec::new();
    log.extend(frame_line(b"{\"a\":1}"));
    log.extend(frame_line(b"garbage"));
    log.extend(frame_line(b""));
    log.extend(frame_line(b"{\"b\":2}"));
    assert_eq!(
        split_lines(&log),
        vec![b"{\"a\":1}".to_vec(), b"garbage".to_vec(), Vec::new(), b"{\"b\":2}".to_vec()]
    );
}
