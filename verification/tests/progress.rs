use duma::progress::{finish_line, Progress, ProgressCallback};

#[test]
fn an_increment_is_a_line() {
    let display = ProgressCallback::new("file.bin", Some(10));
    assert_eq!(display.inc(0), "inc 0");
    assert_eq!(display.inc(2048), "inc 2048");
}

#[test]
fn the_end_is_a_line() {
    let display = ProgressCallback::new("file.bin", None);
    assert_eq!(display.finish(0, None), "finish 0 None");
    assert_eq!(
        display.finish(255, Some("dir/a \"b\"\n.txt".to_string())),
        "finish 255 Some(\"dir/a \\\"b\\\"\\n.txt\")"
    );
    for path in ["", "plain", "tab\t", "\u{00e9}", "back\\slash"] {
        let line = format!("finish {} {:?}", 1u8, Some(path.to_string()));
        assert_eq!(display.finish(1, Some(path.to_string())), line);
    }
}

#[test]
fn a_shown_path_is_put_into_the_line() {
    assert_eq!(finish_line(3, &Some("x".to_string())), "finish 3 Some(x)");
    assert_eq!(finish_line(4, &None), "finish 4 None");
}

struct Counter {
    length: Option<u64>,
}

impl Progress for Counter {
    fn new(_msg: &str, length: Option<u64>) -> Self {
        Counter { length }
    }

    fn inc(&self, _delta: u64) {}

    fn finish(&self, _status: u8, _path: Option<String>) {}
}

#[test]
fn other_displays_can_be_written() {
    let display: Counter = Progress::new("file.bin", Some(3));
    display.inc(3);
    display.finish(0, None);
    assert_eq!(display.length, Some(3));
}
