use duma::hooks::{
    run_hooks, send_concurrent_content, send_content, tell_finish, tell_ftp_content_length,
    tell_headers, tell_max_retries, tell_supports_resume, try_run_hooks, EventsHandler, HookError,
};
use reqwest::header::{HeaderMap, HeaderValue, CONTENT_LENGTH, SET_COOKIE};
use std::cell::RefCell;
use std::rc::Rc;

struct Recorder {
    seen: Vec<Vec<u8>>,
    fails: bool,
    finished: u32,
}

impl Recorder {
    fn new(fails: bool) -> Recorder {
        Recorder { seen: Vec::new(), fails, finished: 0 }
    }
}

impl EventsHandler for Recorder {
    fn on_content(&mut self, content: &[u8]) -> Result<(), HookError> {
        self.seen.push(content.to_vec());
        if self.fails {
            Err(HookError { message: "full".to_string() })
        } else {
            Ok(())
        }
    }

    fn on_finish(&mut self) {
        self.finished += 1;
    }
}

struct Indifferent {}

impl EventsHandler for Indifferent {}

#[test]
fn content_goes_to_all_hooks_in_order() {
    let mut hooks = vec![Recorder::new(false), Recorder::new(false)];
    assert!(send_content(&mut hooks, b"ab").is_ok());
    assert!(send_content(&mut hooks, b"c").is_ok());
    for hook in &hooks {
        assert_eq!(hook.seen, vec![b"ab".to_vec(), b"c".to_vec()]);
    }
}

#[test]
fn the_first_failing_hook_stops_the_others() {
    let mut hooks = vec![Recorder::new(false), Recorder::new(true), Recorder::new(false)];
    let error = send_content(&mut hooks, b"ab").unwrap_err();
    assert_eq!(error.message, "full");
    assert_eq!(hooks[0].seen.len(), 1);
    assert_eq!(hooks[1].seen.len(), 1);
    assert_eq!(hooks[2].seen.len(), 0);
}

#[test]
fn no_hooks_report_no_error() {
    let mut hooks: Vec<Recorder> = Vec::new();
    assert!(send_content(&mut hooks, b"ab").is_ok());
}

#[test]
fn run_hooks_calls_each_hook_once() {
    let mut hooks = vec![Recorder::new(false), Recorder::new(true)];
    run_hooks(&mut hooks, &mut (), |_: &mut (), hook: &mut Recorder| hook.on_finish());
    assert_eq!(hooks[0].finished, 1);
    assert_eq!(hooks[1].finished, 1);
}

#[test]
fn try_run_hooks_gives_the_first_error_back() {
    let mut numbers = vec![1, 2, 3, 4];
    let mut calls = 0;
    let result = try_run_hooks(&mut numbers, &mut calls, |calls: &mut i32, n: &mut i32| {
        *calls += 1;
        *n += 10;
        if *n == 13 {
            Err(*n)
        } else {
            Ok(())
        }
    });
    assert_eq!(result, Err(13));
    assert_eq!(numbers, vec![11, 12, 13, 4]);
    assert_eq!(calls, 3);
    let result: Result<(), i32> =
        try_run_hooks(&mut numbers, &mut calls, |_: &mut i32, _n: &mut i32| Ok(()));
    assert_eq!(calls, 3);
    assert_eq!(result, Ok(()));
}

#[test]
fn a_hook_may_ignore_everything() {
    let mut hook = Indifferent {};
    hook.on_resume_download(1);
    hook.on_headers(HeaderMap::new());
    assert!(hook.on_content(b"ab").is_ok());
    assert!(hook.on_concurrent_content((2, 0, b"ab")).is_ok());
    hook.on_content_length(2);
    hook.on_ftp_content_length(None);
    hook.on_success_status();
    hook.on_failure_status(404);
    hook.on_finish();
    hook.on_max_retries();
    hook.on_server_supports_resume();
}

#[test]
fn hooks_of_different_kinds_can_be_boxed() {
    let mut hooks: Vec<Box<dyn EventsHandler + Send>> =
        vec![Box::new(Recorder::new(false)), Box::new(Indifferent {})];
    let result = try_run_hooks(
        &mut hooks,
        &mut (),
        |_: &mut (), hook: &mut Box<dyn EventsHandler + Send>| {
            hook.on_concurrent_content((1, 0, b"a"))
        },
    );
    assert!(result.is_ok());
}

/// A hook that writes what it is told into a log that it shares with others.
struct Logger {
    name: &'static str,
    log: Rc<RefCell<Vec<String>>>,
}

impl Logger {
    fn note(&self, text: &str) {
        self.log.borrow_mut().push(format!("{} {}", self.name, text));
    }
}

impl EventsHandler for Logger {
    fn on_headers(&mut self, headers: HeaderMap) {
        for (name, value) in headers.iter() {
            self.note(&format!("{}={}", name, value.to_str().unwrap()));
        }
    }

    fn on_content(&mut self, content: &[u8]) -> Result<(), HookError> {
        self.note(&format!("content {}", content.len()));
        Ok(())
    }

    fn on_concurrent_content(&mut self, content: (u64, u64, &[u8])) -> Result<(), HookError> {
        self.note(&format!("content {} at {}", content.0, content.1));
        Ok(())
    }

    fn on_ftp_content_length(&mut self, ct_len: Option<u64>) {
        self.note(&format!("length {:?}", ct_len));
    }

    fn on_finish(&mut self) {
        self.note("finish");
    }

    fn on_max_retries(&mut self) {
        self.note("max retries");
    }

    fn on_server_supports_resume(&mut self) {
        self.note("resume");
    }
}

fn loggers() -> (Vec<Logger>, Rc<RefCell<Vec<String>>>) {
    let log = Rc::new(RefCell::new(Vec::new()));
    let hooks = vec![
        Logger { name: "a", log: log.clone() },
        Logger { name: "b", log: log.clone() },
        Logger { name: "c", log: log.clone() },
    ];
    (hooks, log)
}

#[test]
fn run_hooks_keeps_the_order_of_the_list() {
    let (mut hooks, log) = loggers();
    let mut order: Vec<&'static str> = Vec::new();
    run_hooks(&mut hooks, &mut order, |order: &mut Vec<&'static str>, hook: &mut Logger| {
        order.push(hook.name);
        hook.on_finish();
    });
    assert_eq!(order, vec!["a", "b", "c"]);
    assert_eq!(*log.borrow(), vec!["a finish", "b finish", "c finish"]);
}

#[test]
fn run_hooks_without_hooks_leaves_the_state() {
    let mut hooks: Vec<Logger> = Vec::new();
    let mut calls = 7;
    run_hooks(&mut hooks, &mut calls, |calls: &mut i32, _: &mut Logger| *calls += 1);
    assert_eq!(calls, 7);
}

#[test]
fn try_run_hooks_keeps_the_order_up_to_the_error() {
    let (mut hooks, log) = loggers();
    let mut order: Vec<&'static str> = Vec::new();
    let result =
        try_run_hooks(&mut hooks, &mut order, |order: &mut Vec<&'static str>, hook: &mut Logger| {
            order.push(hook.name);
            hook.on_max_retries();
            if hook.name == "b" {
                Err("b failed")
            } else {
                Ok(())
            }
        });
    assert_eq!(result, Err("b failed"));
    assert_eq!(order, vec!["a", "b"]);
    assert_eq!(*log.borrow(), vec!["a max retries", "b max retries"]);
}

#[test]
fn notices_reach_the_hooks_in_order() {
    let (mut hooks, log) = loggers();
    tell_supports_resume(&mut hooks);
    tell_max_retries(&mut hooks);
    tell_finish(&mut hooks);
    assert_eq!(
        *log.borrow(),
        vec![
            "a resume",
            "b resume",
            "c resume",
            "a max retries",
            "b max retries",
            "c max retries",
            "a finish",
            "b finish",
            "c finish",
        ]
    );
}

#[test]
fn every_hook_gets_the_length_of_a_file() {
    let (mut hooks, log) = loggers();
    tell_ftp_content_length(&mut hooks, Some(2050));
    tell_ftp_content_length(&mut hooks, None);
    assert_eq!(
        *log.borrow(),
        vec![
            "a length Some(2050)",
            "b length Some(2050)",
            "c length Some(2050)",
            "a length None",
            "b length None",
            "c length None",
        ]
    );
}

#[test]
fn every_hook_gets_all_headers() {
    let (mut hooks, log) = loggers();
    let mut headers = HeaderMap::new();
    headers.insert(CONTENT_LENGTH, HeaderValue::from_static("12"));
    headers.append(SET_COOKIE, HeaderValue::from_static("x"));
    headers.append(SET_COOKIE, HeaderValue::from_static("y"));
    tell_headers(&mut hooks, &headers);
    assert_eq!(headers.len(), 3);
    let log = log.borrow();
    assert_eq!(log.len(), 9);
    for (i, name) in ["a", "b", "c"].iter().enumerate() {
        let told = &log[3 * i..3 * i + 3];
        for header in ["content-length=12", "set-cookie=x", "set-cookie=y"] {
            assert!(told.contains(&format!("{} {}", name, header)));
        }
    }
}

#[test]
fn content_reaches_the_hooks_in_order() {
    let (mut hooks, log) = loggers();
    assert!(send_content(&mut hooks, b"ab").is_ok());
    assert!(send_concurrent_content(&mut hooks, (1, 9, b"c")).is_ok());
    assert_eq!(
        *log.borrow(),
        vec![
            "a content 2",
            "b content 2",
            "c content 2",
            "a content 1 at 9",
            "b content 1 at 9",
            "c content 1 at 9",
        ]
    );
}
