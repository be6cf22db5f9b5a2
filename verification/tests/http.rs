use duma::address::Address;
use duma::headers::{HeaderError, LengthError};
use duma::hooks::{EventsHandler, HookError};
use duma::http::{
    Config, HttpDownload, StreamAction, StreamEvent, Transfer, TransferAction, TransferEvent,
    TransferMode, TransferPhase,
};
use duma::numbers::NumberError;
use reqwest::header::{
    HeaderMap, HeaderValue, ACCEPT_RANGES, CONTENT_LENGTH, HOST, RANGE, USER_AGENT,
};

struct Sink {
    bytes: Vec<u8>,
    room: usize,
}

impl EventsHandler for Sink {
    fn on_content(&mut self, content: &[u8]) -> Result<(), HookError> {
        if self.bytes.len() + content.len() > self.room {
            return Err(HookError { message: "no room".to_string() });
        }
        self.bytes.extend_from_slice(content);
        Ok(())
    }

    fn on_concurrent_content(&mut self, content: (u64, u64, &[u8])) -> Result<(), HookError> {
        let (count, offset, bytes) = content;
        assert_eq!(count as usize, bytes.len());
        if offset as usize + bytes.len() > self.room {
            return Err(HookError { message: "no room".to_string() });
        }
        self.bytes.resize(self.room, b'.');
        self.bytes[offset as usize..offset as usize + bytes.len()].copy_from_slice(bytes);
        Ok(())
    }
}

fn config() -> Config {
    Config {
        user_agent: "Duma/1".to_string(),
        resume: false,
        headers: HeaderMap::new(),
        file: "file.bin".to_string(),
        timeout: 30,
        concurrent: true,
        max_retries: 2,
        num_workers: 8,
        bytes_on_disk: None,
        chunk_offsets: None,
        chunk_size: 1000,
        quiet_mode: false,
    }
}

fn job(conf: Config) -> HttpDownload<Sink> {
    HttpDownload::new(Address::parse("http://example.com/file.bin").unwrap(), conf)
}

fn answer(accept_ranges: Option<&'static str>, length: Option<&'static str>) -> HeaderMap {
    let mut headers = HeaderMap::new();
    if let Some(value) = accept_ranges {
        headers.insert(ACCEPT_RANGES, HeaderValue::from_static(value));
    }
    if let Some(value) = length {
        headers.insert(CONTENT_LENGTH, HeaderValue::from_static(value));
    }
    headers
}

#[test]
fn a_new_download_is_fresh() {
    let d = job(config());
    assert_eq!(d.retries, 0);
    assert!(!d.is_cancel);
    assert!(d.hooks.is_empty());
    assert_eq!(d.debug_text(), "HttpDownload url: http://example.com/file.bin");
}

#[test]
fn a_configuration_is_cloned_whole() {
    let mut conf = config();
    conf.chunk_offsets = Some(vec![(3, 5), (7, 9)]);
    conf.headers.insert(HOST, HeaderValue::from_static("example.com"));
    let copy = conf.clone();
    assert_eq!(copy.user_agent, "Duma/1");
    assert_eq!(copy.file, "file.bin");
    assert_eq!(copy.chunk_offsets, Some(vec![(3, 5), (7, 9)]));
    assert_eq!(copy.headers, conf.headers);
    assert_eq!(copy.chunk_size, 1000);
    assert_eq!(copy.max_retries, 2);
}

#[test]
fn hooks_can_be_added_in_a_row() {
    let mut d = job(config());
    d.events_hook(Sink { bytes: Vec::new(), room: 1 }).events_hook(Sink {
        bytes: Vec::new(),
        room: 2,
    });
    assert_eq!(d.hooks.len(), 2);
    assert_eq!(d.hooks[0].room, 1);
    assert_eq!(d.hooks[1].room, 2);
}

#[test]
fn content_is_sent_to_the_hooks() {
    let mut d = job(config());
    d.events_hook(Sink { bytes: Vec::new(), room: 3 });
    d.events_hook(Sink { bytes: Vec::new(), room: 10 });
    assert!(d.send_content(b"ab").is_ok());
    assert_eq!(d.send_content(b"cd").unwrap_err().message, "no room");
    assert_eq!(d.hooks[0].bytes, b"ab".to_vec());
    assert_eq!(d.hooks[1].bytes, b"ab".to_vec());
}

#[test]
fn pieces_of_ranges_are_sent_to_the_hooks() {
    let mut d = job(config());
    d.events_hook(Sink { bytes: Vec::new(), room: 8 });
    d.events_hook(Sink { bytes: Vec::new(), room: 6 });
    assert!(d.send_concurrent_content((2, 4, b"ef")).is_ok());
    assert!(d.send_concurrent_content((3, 0, b"abc")).is_ok());
    assert_eq!(d.hooks[0].bytes, b"abc.ef..".to_vec());
    assert_eq!(d.send_concurrent_content((2, 6, b"gh")).unwrap_err().message, "no room");
    assert_eq!(d.hooks[0].bytes, b"abc.efgh".to_vec());
    assert_eq!(d.hooks[1].bytes, b"abc.ef".to_vec());
}

#[test]
fn the_first_request_adds_the_user_agent() {
    let mut conf = config();
    conf.headers.insert(USER_AGENT, HeaderValue::from_static("Other/1"));
    conf.headers.insert(RANGE, HeaderValue::from_static("bytes=5-"));
    let request = job(conf).probe_request().unwrap();
    assert_eq!(request.url, "http://example.com/file.bin");
    assert_eq!(request.timeout, 30);
    let agents: Vec<&HeaderValue> = request.headers.get_all(USER_AGENT).iter().collect();
    assert_eq!(agents, vec!["Other/1", "Duma/1"]);
    assert_eq!(request.headers.get(RANGE).unwrap(), "bytes=5-");
}

#[test]
fn an_impossible_user_agent_is_refused() {
    let mut conf = config();
    conf.user_agent = "a\nb".to_string();
    assert_eq!(job(conf).probe_request().err(), Some(HeaderError::InvalidValue));
}

#[test]
fn content_is_fetched_in_ranges_where_that_works() {
    let plan = job(config()).download(&answer(Some("bytes"), Some("2500")));
    assert!(!plan.supports_resume);
    assert_eq!(plan.request.url, "http://example.com/file.bin");
    assert_eq!(plan.request.timeout, 30);
    assert!(matches!(plan.mode, TransferMode::Concurrent(value) if value == b"2500".to_vec()));
}

#[test]
fn content_is_else_fetched_from_start_to_end() {
    let plan = job(config()).download(&answer(None, Some("2500")));
    assert!(matches!(plan.mode, TransferMode::Single));
    let plan = job(config()).download(&answer(Some("none"), Some("2500")));
    assert!(matches!(plan.mode, TransferMode::Single));
    let plan = job(config()).download(&answer(Some("bytes"), None));
    assert!(matches!(plan.mode, TransferMode::Single));
    let mut conf = config();
    conf.concurrent = false;
    let plan = job(conf).download(&answer(Some("bytes"), Some("2500")));
    assert!(matches!(plan.mode, TransferMode::Single));
}

#[test]
fn a_range_of_the_download_gives_way_to_those_of_its_chunks() {
    let mut conf = config();
    conf.headers.insert(RANGE, HeaderValue::from_static("bytes=5-"));
    let mut d = job(conf);
    let plan = d.download(&answer(Some("bytes"), Some("2500")));
    assert!(plan.supports_resume);
    assert!(!plan.request.headers.contains_key(RANGE));
    assert!(!d.conf.headers.contains_key(RANGE));
}

#[test]
fn a_range_of_the_download_stays_otherwise() {
    let mut conf = config();
    conf.concurrent = false;
    conf.headers.insert(RANGE, HeaderValue::from_static("bytes=5-"));
    let mut d = job(conf.clone());
    let plan = d.download(&answer(Some("bytes"), Some("2500")));
    assert!(plan.supports_resume);
    assert_eq!(plan.request.headers.get(RANGE).unwrap(), "bytes=5-");

    conf.concurrent = true;
    let mut d = job(conf);
    let plan = d.download(&answer(None, Some("2500")));
    assert!(!plan.supports_resume);
    assert_eq!(plan.request.headers.get(RANGE).unwrap(), "bytes=5-");
}

#[test]
fn a_download_from_start_to_end_goes_piece_by_piece() {
    let mut d = job(config());
    assert_eq!(d.singlethread_download(StreamEvent::Connected), StreamAction::Read);
    assert_eq!(d.singlethread_download(StreamEvent::Chunk), StreamAction::Deliver);
    assert_eq!(d.singlethread_download(StreamEvent::Delivered), StreamAction::Read);
    assert_eq!(d.singlethread_download(StreamEvent::End), StreamAction::Finish);
    assert_eq!(d.singlethread_download(StreamEvent::ConnectFailed), StreamAction::Fail);
    assert_eq!(d.singlethread_download(StreamEvent::ReadFailed), StreamAction::Fail);
    assert_eq!(d.singlethread_download(StreamEvent::DeliveryFailed), StreamAction::Fail);
    d.cancel();
    assert!(d.is_cancel);
    assert_eq!(d.singlethread_download(StreamEvent::Chunk), StreamAction::Finish);
}

#[test]
fn chunk_offsets_are_those_of_the_content() {
    let d = job(config());
    assert_eq!(d.get_chunk_offsets(2500, 1000), vec![(0, 999), (1000, 2500)]);
    let plan = d.concurrent_download(b"2500").unwrap();
    assert_eq!(plan.chunk_offsets, vec![(0, 999), (1000, 2500)]);
    assert_eq!(
        plan.transfer,
        Transfer { ct_len: 2500, bytes_on_disk: 0, count: 0, phase: TransferPhase::Deciding }
    );
}

#[test]
fn chunk_offsets_that_were_left_are_kept() {
    let mut conf = config();
    conf.chunk_offsets = Some(vec![(700, 999)]);
    conf.bytes_on_disk = Some(700);
    let plan = job(conf).concurrent_download(b"300").unwrap();
    assert_eq!(plan.chunk_offsets, vec![(700, 999)]);
    assert_eq!(
        plan.transfer,
        Transfer { ct_len: 300, bytes_on_disk: 700, count: 700, phase: TransferPhase::Deciding }
    );
}

#[test]
fn a_length_that_is_none_is_refused() {
    let d = job(config());
    assert_eq!(
        d.concurrent_download(b"many").err(),
        Some(LengthError::NotNumber(NumberError::InvalidDigit))
    );
    assert_eq!(d.concurrent_download(&[0xe9]).err(), Some(LengthError::NotText));
}

#[test]
fn a_transfer_completes_when_all_bytes_are_there() {
    let mut conf = config();
    conf.bytes_on_disk = Some(5);
    let mut d = job(conf);
    let mut t = d.concurrent_download(b"10").unwrap().transfer;
    assert_eq!(d.transfer_step(&mut t, TransferEvent::Ready), TransferAction::Receive);
    assert_eq!(d.transfer_step(&mut t, TransferEvent::Received(4)), TransferAction::Deliver);
    assert_eq!(d.transfer_step(&mut t, TransferEvent::Delivered), TransferAction::Poll);
    assert_eq!(d.transfer_step(&mut t, TransferEvent::NoFailure), TransferAction::Receive);
    assert_eq!(d.transfer_step(&mut t, TransferEvent::Received(6)), TransferAction::Deliver);
    assert_eq!(t.count, 15);
    assert_eq!(d.transfer_step(&mut t, TransferEvent::Delivered), TransferAction::Poll);
    assert_eq!(d.transfer_step(&mut t, TransferEvent::NoFailure), TransferAction::Complete);
    assert_eq!(t.phase, TransferPhase::Ended);
}

#[test]
fn too_many_bytes_do_not_complete_a_transfer() {
    let mut d = job(config());
    let mut t = d.concurrent_download(b"10").unwrap().transfer;
    d.transfer_step(&mut t, TransferEvent::Ready);
    d.transfer_step(&mut t, TransferEvent::Received(11));
    d.transfer_step(&mut t, TransferEvent::Delivered);
    assert_eq!(d.transfer_step(&mut t, TransferEvent::NoFailure), TransferAction::Receive);
}

#[test]
fn a_hook_that_fails_aborts_a_transfer() {
    let mut d = job(config());
    let mut t = d.concurrent_download(b"10").unwrap().transfer;
    d.transfer_step(&mut t, TransferEvent::Ready);
    d.transfer_step(&mut t, TransferEvent::Received(4));
    assert_eq!(d.transfer_step(&mut t, TransferEvent::DeliveryFailed), TransferAction::Abort);
    assert_eq!(t.phase, TransferPhase::Ended);
}

#[test]
fn a_cancelled_transfer_stops_at_its_next_decision() {
    let mut d = job(config());
    let mut t = d.concurrent_download(b"10").unwrap().transfer;
    d.transfer_step(&mut t, TransferEvent::Ready);
    d.cancel();
    assert_eq!(d.transfer_step(&mut t, TransferEvent::Received(10)), TransferAction::Deliver);
    assert_eq!(d.transfer_step(&mut t, TransferEvent::Delivered), TransferAction::Poll);
    assert_eq!(d.transfer_step(&mut t, TransferEvent::NoFailure), TransferAction::Cancelled);
}

#[test]
fn failed_ranges_are_fetched_again_a_limited_number_of_times() {
    let mut d = job(config());
    let mut t = d.concurrent_download(b"10").unwrap().transfer;
    let mut retried = 0;
    loop {
        assert_eq!(d.transfer_step(&mut t, TransferEvent::Ready), TransferAction::Receive);
        assert_eq!(
            d.transfer_step(&mut t, TransferEvent::NothingReceived),
            TransferAction::Poll
        );
        match d.transfer_step(&mut t, TransferEvent::Failure { start: 3, end: 9 }) {
            TransferAction::Retry { start, end } => {
                assert_eq!((start, end), (3, 9));
                retried += 1;
            }
            action => {
                assert_eq!(action, TransferAction::GiveUp);
                break;
            }
        }
    }
    assert_eq!(retried, 3);
    assert_eq!(d.retries, 3);
    assert_eq!(t.phase, TransferPhase::Ended);
}

#[test]
fn a_resumed_download_completes_with_what_was_left() {
    let mut conf = config();
    conf.bytes_on_disk = Some(1400);
    conf.chunk_offsets = Some(vec![(400, 999), (2000, 2500)]);
    let mut d = job(conf);
    let plan = d.concurrent_download(b"1100").unwrap();
    assert_eq!(plan.chunk_offsets, vec![(400, 999), (2000, 2500)]);
    let mut t = plan.transfer;
    let mut event = TransferEvent::Ready;
    for count in [600, 100, 400] {
        assert_eq!(d.transfer_step(&mut t, event), TransferAction::Receive);
        assert_eq!(
            d.transfer_step(&mut t, TransferEvent::Received(count)),
            TransferAction::Deliver
        );
        assert_eq!(d.transfer_step(&mut t, TransferEvent::Delivered), TransferAction::Poll);
        event = TransferEvent::NoFailure;
    }
    assert_eq!(d.transfer_step(&mut t, event), TransferAction::Complete);
    assert_eq!(t.count, 2500);
}
