use duma::address::Address;
use duma::course::{HttpAction, HttpEvent, HttpStage, StreamPhase};
use duma::http::{
    Config, HttpDownload, StreamEvent, Transfer, TransferEvent, TransferMode, TransferPhase,
};
use reqwest::header::{HeaderMap, HeaderValue, ACCEPT_RANGES, CONTENT_LENGTH, RANGE};

fn job() -> HttpDownload<()> {
    let conf = Config {
        user_agent: "Duma/1".to_string(),
        resume: false,
        headers: HeaderMap::new(),
        file: "file.bin".to_string(),
        timeout: 30,
        concurrent: true,
        max_retries: 0,
        num_workers: 8,
        bytes_on_disk: None,
        chunk_offsets: None,
        chunk_size: 1000,
        quiet_mode: false,
    };
    HttpDownload::new(Address::parse("http://example.com/file.bin").unwrap(), conf)
}

fn answered(supports_resume: bool, ranged: bool) -> HttpEvent {
    HttpEvent::Answered { supports_resume, ranged }
}

fn fresh(ct_len: u64) -> Transfer {
    Transfer { ct_len, bytes_on_disk: 0, count: 0, phase: TransferPhase::Deciding }
}

/// The actions that the events lead to, and the stage behind them.
fn course(d: &mut HttpDownload<()>, events: &[HttpEvent]) -> (Vec<HttpAction>, HttpStage) {
    let mut stage = HttpStage::Probing;
    let actions = events.iter().map(|event| d.advance(&mut stage, *event)).collect();
    (actions, stage)
}

#[test]
fn a_download_from_start_to_end_runs_its_course() {
    let (actions, stage) = course(
        &mut job(),
        &[
            answered(true, false),
            HttpEvent::Told,
            HttpEvent::Built,
            HttpEvent::Told,
            HttpEvent::Single(StreamEvent::Connected),
            HttpEvent::Single(StreamEvent::Chunk),
            HttpEvent::Single(StreamEvent::Delivered),
            HttpEvent::Single(StreamEvent::End),
            HttpEvent::Told,
        ],
    );
    assert_eq!(
        actions,
        vec![
            HttpAction::TellResume,
            HttpAction::Build,
            HttpAction::TellHeaders,
            HttpAction::Connect,
            HttpAction::Read,
            HttpAction::Deliver,
            HttpAction::Read,
            HttpAction::TellFinish,
            HttpAction::Succeed,
        ]
    );
    assert_eq!(stage, HttpStage::Done);
}

#[test]
fn a_download_in_ranges_runs_its_course() {
    let (actions, stage) = course(
        &mut job(),
        &[
            answered(false, true),
            HttpEvent::Built,
            HttpEvent::Told,
            HttpEvent::Started(fresh(5)),
            HttpEvent::Ranged(TransferEvent::Received(5)),
            HttpEvent::Ranged(TransferEvent::Delivered),
            HttpEvent::Ranged(TransferEvent::NoFailure),
            HttpEvent::Told,
        ],
    );
    assert_eq!(
        actions,
        vec![
            HttpAction::Build,
            HttpAction::TellHeaders,
            HttpAction::Start,
            HttpAction::Receive,
            HttpAction::DeliverRanged,
            HttpAction::Poll,
            HttpAction::TellFinish,
            HttpAction::Succeed,
        ]
    );
    assert_eq!(stage, HttpStage::Done);
}

#[test]
fn too_many_failures_are_told_before_the_end() {
    let mut d = job();
    let failure = HttpEvent::Ranged(TransferEvent::Failure { start: 3, end: 9 });
    let (actions, stage) = course(
        &mut d,
        &[
            answered(false, true),
            HttpEvent::Built,
            HttpEvent::Told,
            HttpEvent::Started(fresh(5)),
            HttpEvent::Ranged(TransferEvent::NothingReceived),
            failure,
            HttpEvent::Ranged(TransferEvent::Ready),
            HttpEvent::Ranged(TransferEvent::NothingReceived),
            failure,
            HttpEvent::Told,
            HttpEvent::Told,
        ],
    );
    assert_eq!(
        actions[4..],
        [
            HttpAction::Poll,
            HttpAction::Retry { start: 3, end: 9 },
            HttpAction::Receive,
            HttpAction::Poll,
            HttpAction::TellMaxRetries,
            HttpAction::TellFinish,
            HttpAction::Succeed,
        ]
    );
    assert_eq!(stage, HttpStage::Done);
    assert_eq!(d.retries, 1);
}

#[test]
fn an_error_ends_a_download_without_a_finish() {
    let single = [answered(false, false), HttpEvent::Built, HttpEvent::Told];
    let connected = HttpEvent::Single(StreamEvent::Connected);
    let chunk = HttpEvent::Single(StreamEvent::Chunk);
    let cases: Vec<Vec<HttpEvent>> = vec![
        vec![HttpEvent::Unanswered],
        vec![answered(false, false), HttpEvent::NotBuilt],
        vec![answered(false, true), HttpEvent::Built, HttpEvent::Told, HttpEvent::NotStarted],
        [&single[..], &[HttpEvent::Single(StreamEvent::ConnectFailed)]].concat(),
        [&single[..], &[connected, HttpEvent::Single(StreamEvent::ReadFailed)]].concat(),
        [&single[..], &[connected, chunk, HttpEvent::Single(StreamEvent::DeliveryFailed)]]
            .concat(),
        vec![
            answered(false, true),
            HttpEvent::Built,
            HttpEvent::Told,
            HttpEvent::Started(fresh(5)),
            HttpEvent::Ranged(TransferEvent::Received(2)),
            HttpEvent::Ranged(TransferEvent::DeliveryFailed),
        ],
    ];
    for events in cases {
        let (actions, stage) = course(&mut job(), &events);
        assert_eq!(stage, HttpStage::Failed);
        assert_eq!(actions.last(), Some(&HttpAction::Fail));
        assert!(!actions.contains(&HttpAction::TellFinish));
    }
}

#[test]
fn a_cancelled_download_gives_no_content() {
    let mut d = job();
    d.cancel();
    for _ in 0..2 {
        let (actions, stage) = course(
            &mut d,
            &[
                answered(false, false),
                HttpEvent::Built,
                HttpEvent::Told,
                HttpEvent::Single(StreamEvent::Connected),
                HttpEvent::Single(StreamEvent::Chunk),
                HttpEvent::Told,
            ],
        );
        assert_eq!(
            actions,
            vec![
                HttpAction::Build,
                HttpAction::TellHeaders,
                HttpAction::Connect,
                HttpAction::Read,
                HttpAction::TellFinish,
                HttpAction::Succeed,
            ]
        );
        assert_eq!(stage, HttpStage::Done);
        let (actions, stage) = course(
            &mut d,
            &[
                answered(true, true),
                HttpEvent::Told,
                HttpEvent::Built,
                HttpEvent::Told,
                HttpEvent::Started(fresh(5)),
                HttpEvent::Told,
            ],
        );
        assert_eq!(
            actions,
            vec![
                HttpAction::TellResume,
                HttpAction::Build,
                HttpAction::TellHeaders,
                HttpAction::Start,
                HttpAction::TellFinish,
                HttpAction::Succeed,
            ]
        );
        assert_eq!(stage, HttpStage::Done);
        assert!(d.is_cancel);
    }
}

#[test]
fn a_cancel_lets_the_awaited_piece_of_a_range_through() {
    let mut d = job();
    let mut stage = HttpStage::Starting;
    assert_eq!(d.advance(&mut stage, HttpEvent::Started(fresh(5))), HttpAction::Receive);
    d.cancel();
    let received = HttpEvent::Ranged(TransferEvent::Received(2));
    assert_eq!(d.advance(&mut stage, received), HttpAction::DeliverRanged);
    let delivered = HttpEvent::Ranged(TransferEvent::Delivered);
    assert_eq!(d.advance(&mut stage, delivered), HttpAction::Poll);
    let no_failure = HttpEvent::Ranged(TransferEvent::NoFailure);
    assert_eq!(d.advance(&mut stage, no_failure), HttpAction::TellFinish);
}

#[test]
fn a_cancel_drops_the_awaited_piece_of_a_stream() {
    let mut d = job();
    let mut stage = HttpStage::Single(StreamPhase::Reading);
    let chunk = HttpEvent::Single(StreamEvent::Chunk);
    assert_eq!(d.advance(&mut stage, chunk), HttpAction::Deliver);
    let delivered = HttpEvent::Single(StreamEvent::Delivered);
    assert_eq!(d.advance(&mut stage, delivered), HttpAction::Read);
    d.cancel();
    assert_eq!(d.advance(&mut stage, chunk), HttpAction::TellFinish);
    assert_eq!(stage, HttpStage::TellingFinish);
}

#[test]
fn the_first_answer_decides_the_course() {
    let mut d = job();
    d.conf.headers.insert(RANGE, HeaderValue::from_static("bytes=7-"));
    let mut headers = HeaderMap::new();
    headers.insert(ACCEPT_RANGES, HeaderValue::from_static("bytes"));
    headers.insert(CONTENT_LENGTH, HeaderValue::from_static("12"));
    let plan = d.download(&headers);
    assert!(matches!(plan.mode, TransferMode::Concurrent(_)));
    assert_eq!(plan.answer(), answered(true, true));
    let plan = d.download(&HeaderMap::new());
    assert_eq!(plan.answer(), answered(false, false));
}

#[test]
fn pieces_are_given_in_the_order_in_which_they_arrive() {
    let mut d = job();
    let mut stage = HttpStage::Single(StreamPhase::Reading);
    let arrived = [vec![1, 2], vec![], vec![3], vec![4]];
    let mut given: Vec<Vec<u8>> = Vec::new();
    for (i, piece) in arrived.iter().enumerate() {
        if i == 3 {
            d.cancel();
        }
        if d.advance(&mut stage, HttpEvent::Single(StreamEvent::Chunk)) == HttpAction::Deliver {
            given.push(piece.clone());
            d.advance(&mut stage, HttpEvent::Single(StreamEvent::Delivered));
        }
    }
    assert_eq!(given, arrived[..3].to_vec());
    assert_eq!(stage, HttpStage::TellingFinish);
}
