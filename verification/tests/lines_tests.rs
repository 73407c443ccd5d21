use linediff::segments;
use linediff::split_lines;

fn expect(text: &str, lines: &[&str]) {
    let got = split_lines(text);
    let want: Vec<String> = lines.iter().map(|s| s.to_string()).collect();
    assert_eq!(got, want);
}

#[test]
fn empty_text_has_no_lines() {
    expect("", &[]);
}

#[test]
fn single_line_without_terminator() {
    expect("a", &["a"]);
}

#[test]
fn trailing_newline_opens_no_line() {
    expect("a\n", &["a"]);
    expect("a\nb\n", &["a", "b"]);
}

#[test]
fn carriage_return_before_newline_is_stripped() {
    expect("a\r\n", &["a"]);
    expect("a\r\nb", &["a", "b"]);
}

#[test]
fn lone_carriage_return_is_kept() {
    expect("a\rb", &["a\rb"]);
    expect("a\nb\r", &["a", "b\r"]);
}

#[test]
fn lone_newline_is_one_empty_line() {
    expect("\n", &[""]);
}

#[test]
fn empty_lines_between_content() {
    expect("a\n\nb", &["a", "", "b"]);
    expect("\n\n", &["", ""]);
}

#[test]
fn split_agrees_with_std_lines() {
    let samples = ["", "a", "a\n", "a\r\n", "a\nb", "a\r\nb\r\n", "\n", "x\n\ny\r\nz"];
    for s in samples {
        let got = split_lines(s);
        let want: Vec<String> = s.lines().map(|l| l.to_string()).collect();
        assert_eq!(got, want);
    }
}

#[test]
fn segments_carry_position_counters() {
    let segs = segments("a\nb\na");
    assert_eq!(segs.len(), 3);
    assert_eq!(segs[0].index, 0);
    assert_eq!(segs[0].seg, "a");
    assert_eq!(segs[1].index, 1);
    assert_eq!(segs[1].seg, "b");
    assert_eq!(segs[2].index, 2);
    assert_eq!(segs[2].seg, "a");
}
