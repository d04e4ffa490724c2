use todo::text::{read_lines, same_text, write_lines};

fn strings(items: &[&str]) -> Vec<String> {
    items.iter().map(|s| s.to_string()).collect()
}

#[test]
fn an_empty_file_holds_no_line() {
    assert_eq!(read_lines(""), Vec::<String>::new());
}

#[test]
fn each_line_feed_ends_a_line() {
    assert_eq!(read_lines("a\n"), strings(&["a"]));
    assert_eq!(read_lines("a\nb\n"), strings(&["a", "b"]));
    assert_eq!(read_lines("\n"), strings(&[""]));
    assert_eq!(read_lines("a\n\nb\n"), strings(&["a", "", "b"]));
    assert_eq!(read_lines("\n\n"), strings(&["", ""]));
}

#[test]
fn what_follows_the_last_line_feed_is_a_line() {
    assert_eq!(read_lines("a"), strings(&["a"]));
    assert_eq!(read_lines("a\nb"), strings(&["a", "b"]));
}

#[test]
fn a_carriage_return_before_a_line_feed_is_dropped() {
    assert_eq!(read_lines("a\r\nb\r\n"), strings(&["a", "b"]));
    assert_eq!(read_lines("\r\n"), strings(&[""]));
    assert_eq!(read_lines("a\r\r\n"), strings(&["a\r"]));
}

#[test]
fn other_carriage_returns_stay() {
    assert_eq!(read_lines("a\rb\n"), strings(&["a\rb"]));
    assert_eq!(read_lines("a\r"), strings(&["a\r"]));
    assert_eq!(read_lines("\r"), strings(&["\r"]));
    assert_eq!(read_lines("\ra\n"), strings(&["\ra"]));
}

#[test]
fn read_lines_agrees_with_a_buffered_reader() {
    for content in ["", "x", "x\n", "x\ny", "x\r\ny\r", "\r\r\n\n\r", "[ ] a\n[*] b\n", "\u{e9}\n\u{20ac}"] {
        let expected: Vec<String> =
            std::io::BufRead::lines(content.as_bytes()).map(|line| line.unwrap()).collect();
        assert_eq!(read_lines(content), expected, "content {:?}", content);
    }
}

#[test]
fn write_lines_closes_each_line() {
    assert_eq!(write_lines(&[]), "");
    assert_eq!(write_lines(&strings(&["a"])), "a\n");
    assert_eq!(write_lines(&strings(&["[ ] a", "[*] b"])), "[ ] a\n[*] b\n");
    assert_eq!(write_lines(&strings(&["", ""])), "\n\n");
}

#[test]
fn written_lines_are_read_back() {
    let lines = strings(&["[ ] a", "[*] b c", "", "[ ] \u{20ac}", "x\ry"]);
    assert_eq!(read_lines(&write_lines(&lines)), lines);
}

#[test]
fn a_line_that_ends_in_a_carriage_return_loses_it() {
    let lines = strings(&["[ ] a\r"]);
    assert_eq!(read_lines(&write_lines(&lines)), strings(&["[ ] a"]));
}

#[test]
fn same_text_compares_character_by_character() {
    assert!(same_text("", ""));
    assert!(same_text("done", "done"));
    assert!(!same_text("done", "undone"));
    assert!(!same_text("done", "don"));
    assert!(!same_text("don", "done"));
    assert!(!same_text("done", "Done"));
    assert!(same_text("caf\u{e9}", "caf\u{e9}"));
}
