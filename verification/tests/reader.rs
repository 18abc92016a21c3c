use manslib::mans::Man;
use manslib::reader::{line_clear_to, line_to_multy, LineReader};

fn c(s: &str) -> Vec<char> {
    s.chars().collect()
}

#[test]
fn reads_lines_with_their_newline() {
    let mut reader = LineReader::new(b"ab\ncd");
    let mut line: Vec<char> = Vec::new();
    assert!(reader.read_line(&mut line));
    assert_eq!(line, c("ab\n"));
    assert!(reader.read_line(&mut line));
    assert_eq!(line, c("ab\ncd"));
    // At the end a read succeeds and appends nothing.
    assert!(reader.read_line(&mut line));
    assert_eq!(line, c("ab\ncd"));
}

#[test]
fn an_invalid_line_fails_and_is_consumed() {
    let mut reader = LineReader::new(&[b'x', b'\n', 0xc3, b'\n', b'y', b'\n']);
    let mut line: Vec<char> = Vec::new();
    assert!(reader.read_line(&mut line));
    assert!(!reader.read_line(&mut line));
    assert_eq!(line, c("x\n"));
    line.clear();
    assert!(reader.read_line(&mut line));
    assert_eq!(line, c("y\n"));
}

#[test]
fn clear_to_finds_the_next_line_that_holds_the_pattern() {
    let mut reader = LineReader::new(b"a\n.Nm ls\nb\n");
    let mut line = c("left over");
    assert!(line_clear_to(&mut reader, &mut line, &c(".Nm")));
    assert_eq!(line, c(".Nm ls\n"));
    assert!(!line_clear_to(&mut reader, &mut line, &c(".Nm")));
    assert!(line.is_empty());
}

#[test]
fn to_multy_gives_the_third_byte() {
    let mut reader = LineReader::new(b"x\n.SH NAME\n");
    let mut line: Vec<char> = Vec::new();
    let finds = vec![c(".Sh"), c(".SH")];
    assert_eq!(line_to_multy(&mut reader, &mut line, &finds), b'H');
    // The first read is appended to what the buffer holds.
    let mut reader = LineReader::new(b"OPTIONS\n");
    let mut line = c("é.");
    assert_eq!(line_to_multy(&mut reader, &mut line, &vec![c("OPTIONS")]), b'.');
    let mut reader = LineReader::new(b"nothing\n");
    let mut line: Vec<char> = Vec::new();
    assert_eq!(line_to_multy(&mut reader, &mut line, &finds), 0);
}

#[test]
fn reads_a_manual_with_crlf_lines_and_no_final_newline() {
    let text = ".Sh NAME\r\n.Nm ls\r\n.Nd list\r\n.It Fl a\r\nAll";
    let man = Man::from_buff(text.as_bytes()).unwrap();
    assert_eq!(man.command.names, vec!["ls".to_string()]);
    assert_eq!(man.command.description, "list");
    assert_eq!(man.arguments[0].option, "-a");
    assert_eq!(man.arguments[0].comments, vec!["All".to_string()]);
}
