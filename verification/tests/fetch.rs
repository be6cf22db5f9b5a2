use duma::fetch::{ChunkAction, ChunkDownload, ChunkEvent, ChunkPhase, Dispatcher};
use duma::headers::HeaderError;
use reqwest::header::{HeaderMap, HeaderName, HeaderValue, ACCEPT, CONNECTION, HOST, RANGE};

#[test]
fn a_range_is_asked_for_by_its_bounds() {
    assert_eq!(ChunkDownload::new((0, 1_023_999)).byte_range(), "bytes=0-1023999");
    assert_eq!(ChunkDownload::new((5, 5)).byte_range(), "bytes=5-5");
}

#[test]
fn the_request_for_a_range_replaces_three_headers() {
    let mut headers = HeaderMap::new();
    headers.insert(RANGE, HeaderValue::from_static("bytes=7-"));
    headers.append(ACCEPT, HeaderValue::from_static("text/html"));
    headers.append(ACCEPT, HeaderValue::from_static("text/plain"));
    headers.insert(HOST, HeaderValue::from_static("example.com"));
    let made = ChunkDownload::new((1000, 1999)).request_headers(&headers).unwrap();
    let ranges: Vec<&HeaderValue> = made.get_all(RANGE).iter().collect();
    assert_eq!(ranges, vec!["bytes=1000-1999"]);
    let accepted: Vec<&HeaderValue> = made.get_all(ACCEPT).iter().collect();
    assert_eq!(accepted, vec!["*/*"]);
    assert_eq!(made.get(CONNECTION).unwrap(), "keep-alive");
    assert_eq!(made.get(HOST).unwrap(), "example.com");
    assert_eq!(made.len(), 4);
    assert_eq!(headers.get(RANGE).unwrap(), "bytes=7-");
}

#[test]
fn a_full_header_map_is_refused() {
    let mut headers = HeaderMap::new();
    let mut i: u32 = 0;
    loop {
        let name = HeaderName::from_bytes(format!("x-{}", i).as_bytes()).unwrap();
        if headers.try_insert(name, HeaderValue::from_static("1")).is_err() {
            break;
        }
        i += 1;
    }
    let made = ChunkDownload::new((0, 9)).request_headers(&headers);
    assert_eq!(made.err(), Some(HeaderError::TooManyHeaders));
    assert!(headers.keys_len() >= duma::headers::SAFE_HEADER_NAMES);
}

#[test]
fn a_range_is_handed_on_piece_by_piece() {
    let mut chunk = ChunkDownload::new((10, 19));
    assert_eq!(chunk.step(ChunkEvent::Connected), ChunkAction::Read);
    assert_eq!(chunk.step(ChunkEvent::Piece(4)), ChunkAction::Send { count: 4, offset: 10 });
    assert_eq!(chunk.step(ChunkEvent::Sent), ChunkAction::Read);
    assert_eq!(chunk.step(ChunkEvent::Piece(6)), ChunkAction::Send { count: 6, offset: 14 });
    assert_eq!(chunk.step(ChunkEvent::Sent), ChunkAction::Finish);
    assert_eq!(chunk.start_offset, 20);
    assert_eq!(chunk.phase, ChunkPhase::Ended);
}

#[test]
fn a_range_may_end_early() {
    let mut chunk = ChunkDownload::new((0, 99));
    chunk.step(ChunkEvent::Connected);
    assert_eq!(chunk.step(ChunkEvent::StreamEnd), ChunkAction::Finish);
    let mut chunk = ChunkDownload::new((0, 99));
    chunk.step(ChunkEvent::Connected);
    assert_eq!(chunk.step(ChunkEvent::Piece(0)), ChunkAction::Finish);
}

#[test]
fn too_much_content_does_not_end_a_range() {
    let mut chunk = ChunkDownload::new((0, 9));
    chunk.step(ChunkEvent::Connected);
    chunk.step(ChunkEvent::Piece(11));
    assert_eq!(chunk.step(ChunkEvent::Sent), ChunkAction::Read);
}

#[test]
fn a_failure_reports_what_was_not_handed_on() {
    let mut chunk = ChunkDownload::new((10, 19));
    assert_eq!(
        chunk.step(ChunkEvent::ConnectFailed),
        ChunkAction::Report { start: 10, end: 19 }
    );

    let mut chunk = ChunkDownload::new((10, 19));
    chunk.step(ChunkEvent::Connected);
    chunk.step(ChunkEvent::Piece(3));
    chunk.step(ChunkEvent::Sent);
    assert_eq!(chunk.step(ChunkEvent::ReadFailed), ChunkAction::Report { start: 13, end: 19 });

    let mut chunk = ChunkDownload::new((10, 19));
    chunk.step(ChunkEvent::Connected);
    chunk.step(ChunkEvent::Piece(3));
    chunk.step(ChunkEvent::Sent);
    chunk.step(ChunkEvent::Piece(4));
    assert_eq!(chunk.step(ChunkEvent::SendFailed), ChunkAction::Report { start: 13, end: 19 });
}

#[test]
fn a_range_without_offsets_can_only_fail() {
    let mut chunk = ChunkDownload::new((21, 19));
    assert_eq!(chunk.byte_range(), "bytes=21-19");
    assert_eq!(
        chunk.step(ChunkEvent::ConnectFailed),
        ChunkAction::Report { start: 21, end: 19 }
    );
}

fn fetch(offsets: (u64, u64), pieces: &[u64], fail: bool) -> (Vec<(u64, u64)>, ChunkAction) {
    let mut chunk = ChunkDownload::new(offsets);
    let mut sent = Vec::new();
    let mut action = chunk.step(ChunkEvent::Connected);
    for piece in pieces {
        assert_eq!(action, ChunkAction::Read);
        if let ChunkAction::Send { count, offset } = chunk.step(ChunkEvent::Piece(*piece)) {
            sent.push((offset, count));
        }
        action = chunk.step(ChunkEvent::Sent);
    }
    if fail {
        action = chunk.step(ChunkEvent::ReadFailed);
    }
    (sent, action)
}

#[test]
fn attempts_hand_on_each_byte_once() {
    let (first, action) = fetch((100, 199), &[10, 20], true);
    assert_eq!(first, vec![(100, 10), (110, 20)]);
    assert_eq!(action, ChunkAction::Report { start: 130, end: 199 });
    let (second, action) = fetch((130, 199), &[5], true);
    assert_eq!(second, vec![(130, 5)]);
    assert_eq!(action, ChunkAction::Report { start: 135, end: 199 });
    let (third, action) = fetch((135, 199), &[60, 5], false);
    assert_eq!(third, vec![(135, 60), (195, 5)]);
    assert_eq!(action, ChunkAction::Finish);
}

#[test]
fn ranges_put_the_file_together() {
    let mut at: u64 = 0;
    let offsets = duma::chunks::chunk_offsets(2500, 1000);
    for (i, pair) in offsets.iter().enumerate() {
        let end = if i + 1 == offsets.len() { 2500 } else { pair.1 + 1 };
        let (sent, _) = fetch(*pair, &[400, end - pair.0 - 400], false);
        for (offset, count) in sent {
            assert_eq!(offset, at);
            at += count;
        }
    }
    assert_eq!(at, 2500);
}

#[test]
fn ranges_are_handed_out_in_order() {
    let mut ranges = Dispatcher::new(vec![(0, 9), (10, 19), (20, 29)]);
    assert_eq!(ranges.next_chunk(false), Some((0, 9)));
    assert_eq!(ranges.next_chunk(false), Some((10, 19)));
    assert_eq!(ranges.next_chunk(false), Some((20, 29)));
    assert_eq!(ranges.next_chunk(false), None);
    assert_eq!(ranges.next_chunk(false), None);
}

#[test]
fn a_cancelled_download_hands_out_nothing_more() {
    let mut ranges = Dispatcher::new(vec![(0, 9), (10, 19)]);
    assert_eq!(ranges.next_chunk(false), Some((0, 9)));
    assert_eq!(ranges.next_chunk(true), None);
    assert_eq!(ranges.next_chunk(false), None);
}

#[test]
fn enough_bytes_are_the_file() {
    let offsets = duma::chunks::chunk_offsets(25, 10);
    assert_eq!(offsets, vec![(0, 9), (10, 25)]);
    let (mut first, action) = fetch(offsets[0], &[4], true);
    assert_eq!(action, ChunkAction::Report { start: 4, end: 9 });
    let (again, _) = fetch((4, 9), &[6], false);
    let (second, _) = fetch(offsets[1], &[7, 8], false);
    let arrived: u64 = [&first, &again, &second].iter().flat_map(|p| p.iter()).map(|p| p.1).sum();
    assert_eq!(arrived, 25);
    first.extend(again);
    first.extend(second);
    assert_eq!(first, vec![(0, 4), (4, 6), (10, 7), (17, 8)]);
}
