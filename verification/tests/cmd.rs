use duma::cmd::{run, state_file_name, Args, CmdError, NextStep, Route, Settings};
use duma::numbers::NumberError;
use reqwest::header::{HeaderMap, HeaderValue, CONTENT_LENGTH, HOST};

fn args(url: &str) -> Args {
    Args {
        version: "1.2.3".to_string(),
        url: Some(url.to_string()),
        quiet: false,
        resume: false,
        singlethread: false,
        headers: false,
        file: None,
        agent: None,
        seconds: None,
        num_connections: None,
    }
}

fn settings(url: &str) -> Settings {
    run(&args(url)).unwrap()
}

fn length(value: &[u8]) -> HeaderMap {
    let mut headers = HeaderMap::new();
    headers.insert(CONTENT_LENGTH, HeaderValue::from_bytes(value).unwrap());
    headers
}

#[test]
fn arguments_have_defaults() {
    let s = settings("http://example.com/file.bin");
    assert_eq!(s.url.text, "http://example.com/file.bin");
    assert_eq!(s.timeout, 30);
    assert_eq!(s.num_workers, 8);
    assert_eq!(s.user_agent, "Duma/1.2.3");
    assert_eq!(s.file_name, None);
    assert!(s.concurrent_download);
    assert!(!s.resume_download);
    assert!(!s.quiet_mode);
    assert!(!s.show_headers);
}

#[test]
fn arguments_are_taken_over() {
    let mut a = args("http://example.com/file.bin");
    a.quiet = true;
    a.resume = true;
    a.singlethread = true;
    a.headers = true;
    a.file = Some("out".to_string());
    a.agent = Some("Me/2".to_string());
    a.seconds = Some("5".to_string());
    a.num_connections = Some("3".to_string());
    let s = run(&a).unwrap();
    assert!(s.quiet_mode);
    assert!(s.resume_download);
    assert!(!s.concurrent_download);
    assert!(s.show_headers);
    assert_eq!(s.file_name.as_deref(), Some("out"));
    assert_eq!(s.user_agent, "Me/2");
    assert_eq!(s.timeout, 5);
    assert_eq!(s.num_workers, 3);
}

#[test]
fn the_address_is_needed_first() {
    let mut a = args("x");
    a.url = None;
    a.seconds = Some("soon".to_string());
    let error = run(&a).err().unwrap();
    assert!(matches!(error, CmdError::MissingUrl));
    assert_eq!(error.message().as_deref(), Some("missing URL argument"));
    a.url = Some("no address".to_string());
    let error = run(&a).err().unwrap();
    assert!(matches!(error, CmdError::InvalidUrl(_)));
    assert_eq!(error.message().as_deref(), Some("relative URL without a base"));
}

#[test]
fn numbers_are_needed_for_the_limits() {
    let mut a = args("http://example.com/");
    a.num_connections = Some("".to_string());
    assert!(matches!(run(&a), Err(CmdError::InvalidConnections(NumberError::Empty))));
    a.seconds = Some("-1".to_string());
    assert!(matches!(run(&a), Err(CmdError::InvalidTimeout(NumberError::InvalidDigit))));
    a.seconds = Some("18446744073709551616".to_string());
    assert!(matches!(run(&a), Err(CmdError::InvalidTimeout(NumberError::Overflow))));
}

#[test]
fn headers_may_be_all_that_is_wanted() {
    let mut a = args("http://example.com/");
    a.headers = true;
    let step = run(&a).unwrap().after_headers(&length(&[0xe9])).unwrap();
    assert_eq!(step, NextStep::PrintHeaders);
}

#[test]
fn the_length_is_that_of_the_headers() {
    let s = settings("http://example.com/");
    assert_eq!(s.after_headers(&length(b"2500")).unwrap(), NextStep::Download(2500));
    assert_eq!(s.after_headers(&length(b"many")).unwrap(), NextStep::Download(0));
    assert_eq!(s.after_headers(&HeaderMap::new()).unwrap(), NextStep::Download(0));
    assert!(matches!(s.after_headers(&length(&[0xe9])), Err(CmdError::InvalidLength)));
}

#[test]
fn ranges_are_looked_up_only_to_resume_in_ranges() {
    let mut s = settings("http://example.com/");
    assert!(!s.resumes_chunks(true, 10));
    s.resume_download = true;
    assert!(s.resumes_chunks(true, 10));
    assert!(!s.resumes_chunks(false, 10));
    assert!(!s.resumes_chunks(true, 0));
    s.concurrent_download = false;
    assert!(!s.resumes_chunks(true, 10));
}

#[test]
fn the_state_of_a_download_is_kept_beside_it() {
    assert_eq!(state_file_name("file.bin"), "file.bin.st");
}

#[test]
fn a_configuration_follows_the_settings() {
    let mut s = settings("http://example.com/");
    let mut headers = HeaderMap::new();
    headers.insert(HOST, HeaderValue::from_static("example.com"));
    let conf = s.config("out".to_string(), headers.clone(), true, 10, Some(vec![(7, 9)]), Some(7));
    assert_eq!(conf.user_agent, "Duma/1.2.3");
    assert_eq!(conf.headers, headers);
    assert_eq!(conf.file, "out");
    assert_eq!(conf.timeout, 30);
    assert!(conf.concurrent);
    assert_eq!(conf.max_retries, 100);
    assert_eq!(conf.num_workers, 8);
    assert_eq!(conf.bytes_on_disk, None);
    assert_eq!(conf.chunk_offsets, None);
    assert_eq!(conf.chunk_size, 1_024_000);
    s.resume_download = true;
    let left = Some(vec![(7, 9)]);
    let conf = s.config("out".to_string(), headers.clone(), false, 10, left.clone(), Some(7));
    assert_eq!(conf.chunk_offsets, None);
    let conf = s.config("out".to_string(), headers, true, 10, left, Some(7));
    assert!(conf.resume);
    assert_eq!(conf.bytes_on_disk, Some(7));
    assert_eq!(conf.chunk_offsets, Some(vec![(7, 9)]));
}

#[test]
fn the_scheme_decides_the_protocol() {
    assert_eq!(settings("http://example.com/").route().unwrap(), Route::Http);
    assert_eq!(settings("HTTPS://example.com/").route().unwrap(), Route::Http);
    assert_eq!(settings("ftp://example.com/").route().unwrap(), Route::Ftp);
    let error = settings("gopher://example.com/").route().err().unwrap();
    assert_eq!(error.message().as_deref(), Some("unsupported url scheme 'gopher'"));
}

#[test]
fn a_quiet_run_says_nothing() {
    let mut a = args("http://example.com/");
    assert!(run(&a).unwrap().logs());
    a.quiet = true;
    let s = run(&a).unwrap();
    assert!(!s.logs());
    let conf = s.config("out".to_string(), HeaderMap::new(), false, 0, None, None);
    assert!(conf.quiet_mode);
}
