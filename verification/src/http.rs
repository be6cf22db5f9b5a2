//! Downloads over HTTP.
use reqwest::header::{HeaderMap, HeaderValue};
use vstd::prelude::*;

use crate::address::Address;
use crate::chunks::{chunk_bounds, chunk_offsets, offset_ints};
use crate::course::HttpEvent;
use crate::fetch::{bytes_total, delivered_by_attempts, joined, possible_attempts};
use crate::fetch::{lemma_attempts_tile_the_range, lemma_enough_bytes_are_the_file};
use crate::fetch::{left_total, lemma_enough_bytes_are_the_ranges, range_stop};
use crate::fetch::{reached_by_attempts, tiles, ChunkEvent};
use crate::headers::{add_header, header_entries, headers_clone, headers_contain, headers_get};
use crate::headers::{headers_remove, is_header_value, length_of, parse_length};
use crate::headers::{lemma_length_is_read_back, lemma_length_needs_digits};
use crate::headers::{lemma_printable_is_value, lemma_what_no_value_holds};
use crate::headers::{serves_byte_ranges, supports_bytes, with_added_value};
use crate::headers::{HeaderError, LengthError, SAFE_HEADER_NAMES};
use crate::hooks::{in_turn_until_error, lemma_in_turn_until_error};
use crate::hooks::{send_concurrent_content, send_content, EventsHandler, HookError};
use crate::numbers::decimal;

verus! {

/// How a file is downloaded.
#[derive(Debug)]
pub struct Config {
    pub user_agent: String,
    pub resume: bool,
    /// The headers of every request.
    pub headers: HeaderMap<HeaderValue>,
    /// The name of the file that the download is written to.
    pub file: String,
    /// The time limit of a request, in seconds.
    pub timeout: u64,
    /// Whether ranges are fetched side by side where the server allows it.
    pub concurrent: bool,
    pub max_retries: u64,
    /// The largest number of ranges that are fetched at one time.
    pub num_workers: usize,
    /// The number of bytes that an earlier download left.
    pub bytes_on_disk: Option<u64>,
    /// The ranges that are still to be fetched, where an earlier download left
    /// some.
    pub chunk_offsets: Option<Vec<(u64, u64)>>,
    pub chunk_size: u64,
    pub quiet_mode: bool,
}

impl Config {
    /// Whether two configurations say the same.
    pub open spec fn same(self, other: Config) -> bool {
        &&& self.user_agent@ == other.user_agent@
        &&& self.resume == other.resume
        &&& header_entries(self.headers) == header_entries(other.headers)
        &&& self.file@ == other.file@
        &&& self.timeout == other.timeout
        &&& self.concurrent == other.concurrent
        &&& self.max_retries == other.max_retries
        &&& self.num_workers == other.num_workers
        &&& self.bytes_on_disk == other.bytes_on_disk
        &&& optional_offsets(self.chunk_offsets) == optional_offsets(other.chunk_offsets)
        &&& self.chunk_size == other.chunk_size
        &&& self.quiet_mode == other.quiet_mode
    }
}

impl Clone for Config {
    fn clone(&self) -> (r: Config)
        ensures
            r.same(*self),
    {
        let chunk_offsets = match &self.chunk_offsets {
            Some(offsets) => Some(copy_offsets(offsets)),
            None => None,
        };
        Config {
            user_agent: self.user_agent.clone(),
            resume: self.resume,
            headers: headers_clone(&self.headers),
            file: self.file.clone(),
            timeout: self.timeout,
            concurrent: self.concurrent,
            max_retries: self.max_retries,
            num_workers: self.num_workers,
            bytes_on_disk: self.bytes_on_disk,
            chunk_offsets,
            chunk_size: self.chunk_size,
            quiet_mode: self.quiet_mode,
        }
    }
}

/// The ranges of an optional list.
pub open spec fn optional_offsets(offsets: Option<Vec<(u64, u64)>>) -> Option<Seq<(u64, u64)>> {
    match offsets {
        Some(offsets) => Some(offsets@),
        None => None,
    }
}

fn copy_offsets(offsets: &Vec<(u64, u64)>) -> (r: Vec<(u64, u64)>)
    ensures
        r@ == offsets@,
{
    let mut copy: Vec<(u64, u64)> = Vec::new();
    let mut i: usize = 0;
    while i < offsets.len()
        invariant
            i <= offsets.len(),
            copy@ == offsets@.take(i as int),
        decreases offsets.len() - i,
    {
        copy.push(offsets[i]);
        assert(offsets@.take(i + 1) == offsets@.take(i as int).push(offsets@[i as int]));
        i = i + 1;
    }
    assert(offsets@.take(i as int) == offsets@);
    copy
}

/// A request to be made.
#[derive(Debug)]
pub struct RequestPlan {
    pub url: String,
    /// The time limit, in seconds.
    pub timeout: u64,
    pub headers: HeaderMap<HeaderValue>,
}

/// The two ways to fetch the content.
#[derive(Clone, Debug)]
pub enum TransferMode {
    /// In ranges; the value of the `Content-Length` header says how much there
    /// is.
    Concurrent(Vec<u8>),
    /// From start to end.
    Single,
}

/// What is done once the server has answered for the first time.
#[derive(Debug)]
pub struct DownloadPlan {
    /// Whether the observers are told that the server can resume.
    pub supports_resume: bool,
    /// The request for the content.
    pub request: RequestPlan,
    pub mode: TransferMode,
}

/// The start of a download in ranges.
#[derive(Clone, Debug)]
pub struct ConcurrentPlan {
    /// The ranges to fetch.
    pub chunk_offsets: Vec<(u64, u64)>,
    pub transfer: Transfer,
}

/// How far a download in ranges has come.
#[derive(Clone, Copy, Debug, PartialEq, Eq, Structural)]
pub struct Transfer {
    /// The number of bytes that are to arrive.
    pub ct_len: u64,
    /// The number of bytes that were there before.
    pub bytes_on_disk: u64,
    /// The number of bytes that were there before or have arrived.
    pub count: u64,
    pub phase: TransferPhase,
}

#[derive(Clone, Copy, Debug, PartialEq, Eq, Structural)]
pub enum TransferPhase {
    /// It is to be decided whether to go on.
    Deciding,
    /// A piece is awaited.
    Receiving,
    /// The observers are given a piece.
    Delivering,
    /// It is being looked for a range whose fetching failed.
    Polling,
    Ended,
}

/// What happened to a download in ranges.
#[derive(Clone, Copy, Debug, PartialEq, Eq, Structural)]
pub enum TransferEvent {
    /// All that was asked for is under way.
    Ready,
    /// A piece of this many bytes arrived.
    Received(u64),
    /// No piece will arrive.
    NothingReceived,
    /// The observers took the piece.
    Delivered,
    /// An observer reported an error.
    DeliveryFailed,
    /// No range has failed.
    NoFailure,
    /// The fetching of the offsets from `start` to `end` failed.
    Failure { start: u64, end: u64 },
}

/// What is to be done next for a download in ranges.
#[derive(Clone, Copy, Debug, PartialEq, Eq, Structural)]
pub enum TransferAction {
    /// Wait for a piece.
    Receive,
    /// Give the piece to the observers.
    Deliver,
    /// Look for a range whose fetching failed.
    Poll,
    /// Fetch the offsets from `start` to `end` again.
    Retry { start: u64, end: u64 },
    /// Tell the observers that there were too many failures, and stop.
    GiveUp,
    /// Stop: the download was cancelled.
    Cancelled,
    /// Stop: all bytes are there.
    Complete,
    /// Stop with the error of the observer.
    Abort,
}

/// What happened to a download from start to end.
#[derive(Clone, Copy, Debug, PartialEq, Eq, Structural)]
pub enum StreamEvent {
    /// The server answered.
    Connected,
    /// The request could not be made.
    ConnectFailed,
    /// A piece arrived.
    Chunk,
    /// The answer has ended.
    End,
    /// The answer could not be read on.
    ReadFailed,
    /// The observers took the piece.
    Delivered,
    /// An observer reported an error.
    DeliveryFailed,
}

/// What is to be done next for a download from start to end.
#[derive(Clone, Copy, Debug, PartialEq, Eq, Structural)]
pub enum StreamAction {
    /// Read the next piece.
    Read,
    /// Give the piece to the observers.
    Deliver,
    /// Stop.
    Finish,
    /// Stop with the error that just came up.
    Fail,
}

/// What an event leads to in a download from start to end that was cancelled or
/// not.
pub open spec fn stream_action(cancelled: bool, event: StreamEvent) -> StreamAction {
    match event {
        StreamEvent::Connected | StreamEvent::Delivered => StreamAction::Read,
        StreamEvent::Chunk => if cancelled {
            StreamAction::Finish
        } else {
            StreamAction::Deliver
        },
        StreamEvent::End => StreamAction::Finish,
        StreamEvent::ConnectFailed
        | StreamEvent::ReadFailed
        | StreamEvent::DeliveryFailed => StreamAction::Fail,
    }
}

/// A download over HTTP with observers of type `H`.
pub struct HttpDownload<H> {
    pub url: Address,
    pub hooks: Vec<H>,
    pub conf: Config,
    /// The number of ranges that were fetched again.
    pub retries: u64,
    pub is_cancel: bool,
}

impl DownloadPlan {
    /// The answer of the server as an event of the download.
    pub fn answer(&self) -> (r: HttpEvent)
        ensures
            r == (HttpEvent::Answered {
                supports_resume: self.supports_resume,
                ranged: self.mode is Concurrent,
            }),
    {
        let ranged: bool = match self.mode {
            TransferMode::Concurrent(_) => true,
            TransferMode::Single => false,
        };
        HttpEvent::Answered { supports_resume: self.supports_resume, ranged }
    }
}

impl<H> HttpDownload<H> {
    pub fn new(url: Address, conf: Config) -> (r: HttpDownload<H>)
        ensures
            r.url == url,
            r.conf == conf,
            r.hooks@ == Seq::<H>::empty(),
            r.retries == 0,
            !r.is_cancel,
    {
        HttpDownload { url, hooks: Vec::new(), conf, retries: 0, is_cancel: false }
    }

    /// How a download is shown to a developer.
    pub fn debug_text(&self) -> (r: String)
        ensures
            r@ == "HttpDownload url: "@ + self.url.text@,
    {
        let mut text = String::new();
        text.append("HttpDownload url: ");
        text.append(self.url.text.as_str());
        assert(text@ == "HttpDownload url: "@ + self.url.text@);
        text
    }

    /// Stops the download at its next decision.
    pub fn cancel(&mut self)
        ensures
            *final(self) == (HttpDownload { is_cancel: true, ..*old(self) }),
    {
        self.is_cancel = true;
    }

    /// Adds an observer, behind those that there are.
    pub fn events_hook(&mut self, hk: H) -> (r: &mut HttpDownload<H>)
        ensures
            r.hooks@ == old(self).hooks@.push(hk),
            *r == (HttpDownload { hooks: r.hooks, ..*old(self) }),
            *final(self) == *final(r),
    {
        self.hooks.push(hk);
        self
    }

    /// The first request, from whose answer the rest is decided. It carries the
    /// user agent behind the headers that all requests carry.
    pub fn probe_request(&self) -> (r: Result<RequestPlan, HeaderError>)
        ensures
            r matches Ok(request) ==> {
                &&& request.url@ == self.url.text@
                &&& request.timeout == self.conf.timeout
                &&& header_entries(request.headers) == with_added_value(
                    header_entries(self.conf.headers),
                    "user-agent"@,
                    vstd::utf8::encode_utf8(self.conf.user_agent@),
                )
            },
            r matches Err(HeaderError::InvalidValue) <==> !is_header_value(
                vstd::utf8::encode_utf8(self.conf.user_agent@),
            ),
            r matches Err(HeaderError::TooManyHeaders) ==> header_entries(
                self.conf.headers,
            ).dom().len() >= SAFE_HEADER_NAMES,
    {
        proof {
            reveal_strlit("user-agent");
        }
        let mut headers = headers_clone(&self.conf.headers);
        match add_header(&mut headers, "user-agent", self.conf.user_agent.as_str()) {
            Err(e) => Err(e),
            Ok(_) => Ok(
                RequestPlan {
                    url: self.url.text.clone(),
                    timeout: self.conf.timeout,
                    headers,
                },
            ),
        }
    }

    /// Decides, from the headers that the server answered with, how the content
    /// is fetched.
    ///
    /// A server that serves ranges of bytes, asked by headers that hold a
    /// `Range`, can resume. Where ranges are to be fetched side by side, that
    /// `Range` is taken out: each range gets one of its own.
    pub fn download(&mut self, response: &HeaderMap<HeaderValue>) -> (r: DownloadPlan)
        ensures
            r.supports_resume == (serves_byte_ranges(header_entries(*response)) && header_entries(
                old(self).conf.headers,
            ).contains_key("range"@)),
            header_entries(final(self).conf.headers) == if r.supports_resume
                && old(self).conf.concurrent {
                header_entries(old(self).conf.headers).remove("range"@)
            } else {
                header_entries(old(self).conf.headers)
            },
            *final(self) == (HttpDownload {
                conf: Config { headers: final(self).conf.headers, ..old(self).conf },
                ..*old(self)
            }),
            r.request.url@ == old(self).url.text@,
            r.request.timeout == old(self).conf.timeout,
            header_entries(r.request.headers) == header_entries(final(self).conf.headers),
            match r.mode {
                TransferMode::Concurrent(value) => {
                    &&& old(self).fetches_ranges(header_entries(*response))
                    &&& value@ == header_entries(*response)["content-length"@][0]
                    &&& is_header_value(value@)
                },
                TransferMode::Single => !old(self).fetches_ranges(header_entries(*response)),
            },
            r.mode is Concurrent ==> !header_entries(r.request.headers).contains_key("range"@),
    {
        proof {
            reveal_strlit("range");
            reveal_strlit("content-length");
        }
        let server_supports_bytes: bool = supports_bytes(response);
        let supports_resume: bool = server_supports_bytes && headers_contain(
            &self.conf.headers,
            "range",
        );
        if supports_resume && self.conf.concurrent {
            headers_remove(&mut self.conf.headers, "range");
        }
        let request = RequestPlan {
            url: self.url.text.clone(),
            timeout: self.conf.timeout,
            headers: headers_clone(&self.conf.headers),
        };
        let mode = if server_supports_bytes && self.conf.concurrent {
            match headers_get(response, "content-length") {
                Some(value) => TransferMode::Concurrent(value),
                None => TransferMode::Single,
            }
        } else {
            TransferMode::Single
        };
        DownloadPlan { supports_resume, request, mode }
    }

    /// Whether the content is fetched in ranges: it is to be, the server serves
    /// them, and it says how much there is.
    pub open spec fn fetches_ranges(self, response: Map<Seq<char>, Seq<Seq<u8>>>) -> bool {
        &&& serves_byte_ranges(response)
        &&& self.conf.concurrent
        &&& response.contains_key("content-length"@)
    }

    /// The next step of a download from start to end. A cancelled one stops as
    /// soon as the next piece has arrived.
    pub fn singlethread_download(&self, event: StreamEvent) -> (r: StreamAction)
        ensures
            r == stream_action(self.is_cancel, event),
    {
        match event {
            StreamEvent::Connected | StreamEvent::Delivered => StreamAction::Read,
            StreamEvent::Chunk => if self.is_cancel {
                StreamAction::Finish
            } else {
                StreamAction::Deliver
            },
            StreamEvent::End => StreamAction::Finish,
            StreamEvent::ConnectFailed
            | StreamEvent::ReadFailed
            | StreamEvent::DeliveryFailed => StreamAction::Fail,
        }
    }

    /// Cuts `ct_len` bytes into the ranges that they are fetched in.
    pub fn get_chunk_offsets(&self, ct_len: u64, chunk_size: u64) -> (r: Vec<(u64, u64)>)
        requires
            chunk_size > 0,
        ensures
            offset_ints(r@) == chunk_bounds(ct_len as int, chunk_size as int),
    {
        chunk_offsets(ct_len, chunk_size)
    }

    /// The number of bytes that an earlier download left.
    pub open spec fn left_on_disk(self) -> int {
        match self.conf.bytes_on_disk {
            Some(n) => n as int,
            None => 0,
        }
    }

    /// Starts a download in ranges of the content whose `Content-Length` header
    /// has the value `ct_val`. The ranges are those that an earlier download
    /// left, or else all of the content.
    pub fn concurrent_download(&self, ct_val: &[u8]) -> (r: Result<ConcurrentPlan, LengthError>)
        requires
            is_header_value(ct_val@),
            length_of(ct_val@) is Ok ==> self.conf.chunk_offsets is Some || self.conf.chunk_size
                > 0,
        ensures
            match length_of(ct_val@) {
                Err(e) => r matches Err(error) && error == e,
                Ok(n) => {
                    &&& r matches Ok(plan)
                    &&& plan.transfer.wf()
                    &&& plan.transfer.ct_len == n
                    &&& plan.transfer.bytes_on_disk == self.left_on_disk()
                    &&& plan.transfer.count == self.left_on_disk()
                    &&& plan.transfer.phase == TransferPhase::Deciding
                    &&& match self.conf.chunk_offsets {
                        Some(offsets) => plan.chunk_offsets@ == offsets@,
                        None => offset_ints(plan.chunk_offsets@) == chunk_bounds(
                            n,
                            self.conf.chunk_size as int,
                        ),
                    }
                },
            },
    {
        match parse_length(ct_val) {
            Err(e) => Err(e),
            Ok(ct_len) => {
                let chunk_offsets = match &self.conf.chunk_offsets {
                    Some(offsets) => copy_offsets(offsets),
                    None => self.get_chunk_offsets(ct_len, self.conf.chunk_size),
                };
                let bytes_on_disk: u64 = match self.conf.bytes_on_disk {
                    Some(n) => n,
                    None => 0,
                };
                Ok(
                    ConcurrentPlan {
                        chunk_offsets,
                        transfer: Transfer {
                            ct_len,
                            bytes_on_disk,
                            count: bytes_on_disk,
                            phase: TransferPhase::Deciding,
                        },
                    },
                )
            },
        }
    }

    /// Takes note of an event of a download in ranges and says what to do next.
    ///
    /// Each round decides whether to go on, waits for a piece, gives it to the
    /// observers and then looks once for a range whose fetching failed. Such a
    /// range is fetched again unless more than `max_retries` were already.
    pub fn transfer_step(&mut self, transfer: &mut Transfer, event: TransferEvent) -> (action:
        TransferAction)
        requires
            old(transfer).wf(),
            old(transfer).ready_for(
                old(self).is_cancel,
                old(self).retries,
                old(self).conf.max_retries,
                event,
            ),
        ensures
            (*final(transfer), final(self).retries, action) == old(transfer).after(
                old(self).is_cancel,
                old(self).retries,
                old(self).conf.max_retries,
                event,
            ),
            final(transfer).wf(),
            *final(self) == (HttpDownload { retries: final(self).retries, ..*old(self) }),
    {
        match event {
            TransferEvent::Ready | TransferEvent::NoFailure => transfer.decide(self.is_cancel),
            TransferEvent::Received(byte_count) => {
                transfer.count = transfer.count + byte_count;
                transfer.phase = TransferPhase::Delivering;
                TransferAction::Deliver
            },
            TransferEvent::NothingReceived | TransferEvent::Delivered => {
                transfer.phase = TransferPhase::Polling;
                TransferAction::Poll
            },
            TransferEvent::DeliveryFailed => {
                transfer.phase = TransferPhase::Ended;
                TransferAction::Abort
            },
            TransferEvent::Failure { start, end } => {
                if self.do_retry_download() {
                    transfer.phase = TransferPhase::Ended;
                    TransferAction::GiveUp
                } else {
                    transfer.phase = TransferPhase::Deciding;
                    TransferAction::Retry { start, end }
                }
            },
        }
    }

    /// Counts one more range whose fetching failed, and tells whether there
    /// were too many before.
    fn do_retry_download(&mut self) -> (max_retry: bool)
        requires
            old(self).retries < u64::MAX || old(self).retries > old(self).conf.max_retries,
        ensures
            max_retry == (old(self).retries > old(self).conf.max_retries),
            *final(self) == (HttpDownload {
                retries: if max_retry {
                    old(self).retries
                } else {
                    (old(self).retries + 1) as u64
                },
                ..*old(self)
            }),
    {
        if self.retries > self.conf.max_retries {
            return true;
        }
        self.retries = self.retries + 1;
        false
    }
}

impl Transfer {
    /// The bytes that were there before are counted.
    pub open spec fn wf(self) -> bool {
        self.bytes_on_disk <= self.count
    }

    /// The bytes that are to be there in the end can be counted.
    pub open spec fn countable(self) -> bool {
        self.ct_len + self.bytes_on_disk <= u64::MAX
    }

    /// Whether all bytes are there.
    pub open spec fn complete(self) -> bool {
        self.count == self.ct_len + self.bytes_on_disk
    }

    /// The events that can happen now. A piece must leave the bytes countable.
    pub open spec fn accepts(self, event: TransferEvent) -> bool {
        match (self.phase, event) {
            (TransferPhase::Deciding, TransferEvent::Ready) => true,
            (TransferPhase::Receiving, TransferEvent::Received(n)) => self.count + n <= u64::MAX,
            (TransferPhase::Receiving, TransferEvent::NothingReceived) => true,
            (TransferPhase::Delivering, TransferEvent::Delivered) => true,
            (TransferPhase::Delivering, TransferEvent::DeliveryFailed) => true,
            (TransferPhase::Polling, TransferEvent::NoFailure) => true,
            (TransferPhase::Polling, TransferEvent::Failure { .. }) => true,
            _ => false,
        }
    }

    /// Whether an event can happen now and all that it makes to be counted can
    /// be counted.
    pub open spec fn ready_for(
        self,
        cancelled: bool,
        retries: u64,
        max_retries: u64,
        event: TransferEvent,
    ) -> bool {
        &&& self.accepts(event)
        &&& (event is Ready || event is NoFailure) && !cancelled ==> self.countable()
        &&& event is Failure ==> retries < u64::MAX || retries > max_retries
    }

    /// What the decision whether to go on leads to.
    pub open spec fn decided(self, cancelled: bool) -> (Transfer, TransferAction) {
        if cancelled {
            (Transfer { phase: TransferPhase::Ended, ..self }, TransferAction::Cancelled)
        } else if self.complete() {
            (Transfer { phase: TransferPhase::Ended, ..self }, TransferAction::Complete)
        } else {
            (Transfer { phase: TransferPhase::Receiving, ..self }, TransferAction::Receive)
        }
    }

    /// What an event leads to in a download that was cancelled or not and in
    /// which `retries` ranges were fetched again: the next state, the number of
    /// ranges that were fetched again then, and what is to be done.
    pub open spec fn after(
        self,
        cancelled: bool,
        retries: u64,
        max_retries: u64,
        event: TransferEvent,
    ) -> (Transfer, u64, TransferAction) {
        match event {
            TransferEvent::Ready | TransferEvent::NoFailure => {
                let (next, action) = self.decided(cancelled);
                (next, retries, action)
            },
            TransferEvent::Received(n) => (
                Transfer {
                    count: (self.count + n) as u64,
                    phase: TransferPhase::Delivering,
                    ..self
                },
                retries,
                TransferAction::Deliver,
            ),
            TransferEvent::NothingReceived | TransferEvent::Delivered => (
                Transfer { phase: TransferPhase::Polling, ..self },
                retries,
                TransferAction::Poll,
            ),
            TransferEvent::DeliveryFailed => (
                Transfer { phase: TransferPhase::Ended, ..self },
                retries,
                TransferAction::Abort,
            ),
            TransferEvent::Failure { start, end } => if retries > max_retries {
                (
                    Transfer { phase: TransferPhase::Ended, ..self },
                    retries,
                    TransferAction::GiveUp,
                )
            } else {
                (
                    Transfer { phase: TransferPhase::Deciding, ..self },
                    (retries + 1) as u64,
                    TransferAction::Retry { start, end },
                )
            },
        }
    }

    fn decide(&mut self, cancelled: bool) -> (action: TransferAction)
        requires
            !cancelled ==> old(self).countable(),
        ensures
            (*final(self), action) == old(self).decided(cancelled),
    {
        if cancelled {
            self.phase = TransferPhase::Ended;
            TransferAction::Cancelled
        } else if self.count == self.ct_len + self.bytes_on_disk {
            self.phase = TransferPhase::Ended;
            TransferAction::Complete
        } else {
            self.phase = TransferPhase::Receiving;
            TransferAction::Receive
        }
    }
}

impl<H: EventsHandler> HttpDownload<H> {
    /// Hands a piece of the content to one observer after the other until one
    /// reports an error, and gives that error back. The contract speaks of the
    /// calls of `on_content` that were made.
    pub fn send_content(&mut self, contents: &[u8]) -> (r: Result<(), HookError>)
        ensures
            *final(self) == (HttpDownload { hooks: final(self).hooks, ..*old(self) }),
            final(self).hooks@.len() == old(self).hooks@.len(),
            exists|calls: Seq<(&mut H, Result<(), HookError>)>|
                {
                    &&& #[trigger] calls.len() <= old(self).hooks@.len()
                    &&& forall|i: int|
                        #![trigger calls[i]]
                        #![trigger final(self).hooks@[i]]
                        0 <= i < calls.len() ==> {
                            &&& *calls[i].0 == old(self).hooks@[i]
                            &&& *final(calls[i].0) == final(self).hooks@[i]
                            &&& call_ensures(H::on_content, (calls[i].0, contents), calls[i].1)
                            &&& i < calls.len() - 1 ==> calls[i].1 is Ok
                        }
                    &&& forall|i: int|
                        calls.len() <= i < old(self).hooks@.len()
                            ==> #[trigger] final(self).hooks@[i] == old(self).hooks@[i]
                    &&& if calls.len() > 0 && calls.last().1 is Err {
                        r == calls.last().1
                    } else {
                        r is Ok && calls.len() == old(self).hooks@.len()
                    }
                },
    {
        send_content(&mut self.hooks, contents)
    }

    /// Hands a piece of a range, as its number of bytes, its offset and its
    /// bytes, to one observer after the other until one reports an error, and
    /// gives that error back. The contract speaks of the calls of
    /// `on_concurrent_content` that were made.
    pub fn send_concurrent_content(&mut self, content: (u64, u64, &[u8])) -> (r: Result<
        (),
        HookError,
    >)
        ensures
            *final(self) == (HttpDownload { hooks: final(self).hooks, ..*old(self) }),
            final(self).hooks@.len() == old(self).hooks@.len(),
            exists|calls: Seq<(&mut H, Result<(), HookError>)>|
                {
                    &&& #[trigger] calls.len() <= old(self).hooks@.len()
                    &&& forall|i: int|
                        #![trigger calls[i]]
                        #![trigger final(self).hooks@[i]]
                        0 <= i < calls.len() ==> {
                            &&& *calls[i].0 == old(self).hooks@[i]
                            &&& *final(calls[i].0) == final(self).hooks@[i]
                            &&& call_ensures(
                                H::on_concurrent_content,
                                (calls[i].0, content),
                                calls[i].1,
                            )
                            &&& i < calls.len() - 1 ==> calls[i].1 is Ok
                        }
                    &&& forall|i: int|
                        calls.len() <= i < old(self).hooks@.len()
                            ==> #[trigger] final(self).hooks@[i] == old(self).hooks@[i]
                    &&& if calls.len() > 0 && calls.last().1 is Err {
                        r == calls.last().1
                    } else {
                        r is Ok && calls.len() == old(self).hooks@.len()
                    }
                },
    {
        send_concurrent_content(&mut self.hooks, content)
    }
}

/// Whether the events can happen in this order. Each comes with whether the
/// download was cancelled by then.
pub open spec fn possible_transfer(
    t: Transfer,
    retries: u64,
    max_retries: u64,
    events: Seq<(bool, TransferEvent)>,
) -> bool
    decreases events.len(),
{
    events.len() > 0 ==> {
        let (cancelled, event) = events[0];
        let (next, next_retries, _) = t.after(cancelled, retries, max_retries, event);
        &&& t.ready_for(cancelled, retries, max_retries, event)
        &&& possible_transfer(next, next_retries, max_retries, events.skip(1))
    }
}

/// The state of a download in ranges, and the number of ranges that were
/// fetched again, after the events.
pub open spec fn transfer_after_all(
    t: Transfer,
    retries: u64,
    max_retries: u64,
    events: Seq<(bool, TransferEvent)>,
) -> (Transfer, u64)
    decreases events.len(),
{
    if events.len() == 0 {
        (t, retries)
    } else {
        let (cancelled, event) = events[0];
        let (next, next_retries, _) = t.after(cancelled, retries, max_retries, event);
        transfer_after_all(next, next_retries, max_retries, events.skip(1))
    }
}

/// The actions that the events led to.
pub open spec fn transfer_actions(
    t: Transfer,
    retries: u64,
    max_retries: u64,
    events: Seq<(bool, TransferEvent)>,
) -> Seq<TransferAction>
    decreases events.len(),
{
    if events.len() == 0 {
        Seq::empty()
    } else {
        let (cancelled, event) = events[0];
        let (next, next_retries, action) = t.after(cancelled, retries, max_retries, event);
        seq![action] + transfer_actions(next, next_retries, max_retries, events.skip(1))
    }
}

/// The number of bytes that arrived during the events.
pub open spec fn received_total(events: Seq<(bool, TransferEvent)>) -> int
    decreases events.len(),
{
    if events.len() == 0 {
        0
    } else {
        received_total(events.skip(1)) + match events[0].1 {
            TransferEvent::Received(n) => n as int,
            _ => 0,
        }
    }
}

/// The number of times that a range was to be fetched again.
pub open spec fn retry_total(actions: Seq<TransferAction>) -> int
    decreases actions.len(),
{
    if actions.len() == 0 {
        0
    } else {
        retry_total(actions.skip(1)) + if actions[0] is Retry {
            1int
        } else {
            0
        }
    }
}

/// Whatever happens, the bytes that are counted are those that were there
/// before and those that arrived.
pub proof fn lemma_count_is_what_arrived(
    t: Transfer,
    retries: u64,
    max_retries: u64,
    events: Seq<(bool, TransferEvent)>,
)
    requires
        t.wf(),
        possible_transfer(t, retries, max_retries, events),
    ensures
        ({
            let end = transfer_after_all(t, retries, max_retries, events).0;
            &&& end.count == t.count + received_total(events)
            &&& end.ct_len == t.ct_len
            &&& end.bytes_on_disk == t.bytes_on_disk
            &&& end.wf()
        }),
    decreases events.len(),
{
    if events.len() > 0 {
        let (cancelled, event) = events[0];
        let (next, next_retries, _) = t.after(cancelled, retries, max_retries, event);
        lemma_count_is_what_arrived(next, next_retries, max_retries, events.skip(1));
    }
}

/// A download in ranges that has just begun completes at a decision exactly
/// where it is not cancelled and as many bytes arrived as the server said there
/// were.
pub proof fn lemma_complete_is_all_arrived(
    t: Transfer,
    retries: u64,
    max_retries: u64,
    events: Seq<(bool, TransferEvent)>,
    cancelled: bool,
)
    requires
        t.wf(),
        t.count == t.bytes_on_disk,
        possible_transfer(t, retries, max_retries, events),
    ensures
        transfer_after_all(t, retries, max_retries, events).0.decided(cancelled).1
            == TransferAction::Complete <==> !cancelled && received_total(events) == t.ct_len,
{
    lemma_count_is_what_arrived(t, retries, max_retries, events);
}

/// The pieces that the attempts at each range handed on.
pub open spec fn delivered_of_ranges(
    offsets: Seq<(u64, u64)>,
    attempts: Seq<Seq<Seq<ChunkEvent>>>,
) -> Seq<Seq<(int, int)>> {
    Seq::new(offsets.len(), |i: int| delivered_by_attempts(offsets[i], attempts[i]))
}

/// A download in ranges that completes has the file: where no answer reaches
/// beyond its range or the content, and no more arrived than the attempts at the
/// ranges handed on, what they handed on is the content without gap or overlap.
pub proof fn lemma_complete_is_the_file(
    t: Transfer,
    retries: u64,
    max_retries: u64,
    events: Seq<(bool, TransferEvent)>,
    cancelled: bool,
    chunk_size: int,
    offsets: Seq<(u64, u64)>,
    attempts: Seq<Seq<Seq<ChunkEvent>>>,
)
    requires
        t.wf(),
        t.count == t.bytes_on_disk,
        possible_transfer(t, retries, max_retries, events),
        transfer_after_all(t, retries, max_retries, events).0.decided(cancelled).1
            == TransferAction::Complete,
        chunk_size > 0,
        offset_ints(offsets) == chunk_bounds(t.ct_len as int, chunk_size),
        attempts.len() == offsets.len(),
        forall|i: int|
            0 <= i < offsets.len() ==> {
                &&& possible_attempts(#[trigger] offsets[i], attempts[i])
                &&& reached_by_attempts(offsets[i], attempts[i]) <= offsets[i].1 + 1
                &&& reached_by_attempts(offsets[i], attempts[i]) <= t.ct_len
            },
        received_total(events) <= bytes_total(joined(delivered_of_ranges(offsets, attempts))),
    ensures
        tiles(joined(delivered_of_ranges(offsets, attempts)), 0, t.ct_len as int),
{
    let bounds = chunk_bounds(t.ct_len as int, chunk_size);
    let pieces = delivered_of_ranges(offsets, attempts);
    let ends = Seq::new(offsets.len(), |i: int| reached_by_attempts(offsets[i], attempts[i]));
    lemma_complete_is_all_arrived(t, retries, max_retries, events, cancelled);
    assert(bounds.len() == offsets.len());
    assert forall|i: int| 0 <= i < pieces.len() implies {
        &&& tiles(#[trigger] pieces[i], bounds[i].0, ends[i])
        &&& ends[i] <= bounds[i].1 + 1
        &&& ends[i] <= t.ct_len
    } by {
        assert(possible_attempts(offsets[i], attempts[i]));
        assert(bounds[i] == offset_ints(offsets)[i]);
        lemma_attempts_tile_the_range(offsets[i], attempts[i]);
    }
    lemma_enough_bytes_are_the_file(t.ct_len as int, chunk_size, pieces, ends);
}

/// A download of the ranges that an earlier one left has all of them when it
/// completes: where they hold as many bytes of a file of `len` bytes as are to
/// arrive, no answer reaches beyond its range or the file, and no more arrived
/// than the attempts at the ranges handed on, what they handed on of each range is
/// the range up to its end or that of the file, without gap or overlap.
pub proof fn lemma_complete_is_what_was_left(
    t: Transfer,
    retries: u64,
    max_retries: u64,
    events: Seq<(bool, TransferEvent)>,
    cancelled: bool,
    len: int,
    offsets: Seq<(u64, u64)>,
    attempts: Seq<Seq<Seq<ChunkEvent>>>,
)
    requires
        t.wf(),
        t.count == t.bytes_on_disk,
        possible_transfer(t, retries, max_retries, events),
        transfer_after_all(t, retries, max_retries, events).0.decided(cancelled).1
            == TransferAction::Complete,
        left_total(offsets, len) == t.ct_len,
        attempts.len() == offsets.len(),
        forall|i: int|
            0 <= i < offsets.len() ==> {
                &&& possible_attempts(#[trigger] offsets[i], attempts[i])
                &&& reached_by_attempts(offsets[i], attempts[i]) <= offsets[i].1 + 1
                &&& reached_by_attempts(offsets[i], attempts[i]) <= len
            },
        received_total(events) <= bytes_total(joined(delivered_of_ranges(offsets, attempts))),
    ensures
        forall|i: int|
            0 <= i < offsets.len() ==> {
                &&& reached_by_attempts(#[trigger] offsets[i], attempts[i]) == range_stop(
                    offsets[i],
                    len,
                )
                &&& tiles(
                    delivered_by_attempts(offsets[i], attempts[i]),
                    offsets[i].0 as int,
                    range_stop(offsets[i], len),
                )
            },
{
    let pieces = delivered_of_ranges(offsets, attempts);
    let ends = Seq::new(offsets.len(), |i: int| reached_by_attempts(offsets[i], attempts[i]));
    lemma_complete_is_all_arrived(t, retries, max_retries, events, cancelled);
    assert forall|i: int| 0 <= i < offsets.len() implies {
        &&& tiles(pieces[i], (#[trigger] offsets[i]).0 as int, ends[i])
        &&& ends[i] <= range_stop(offsets[i], len)
    } by {
        assert(possible_attempts(offsets[i], attempts[i]));
        lemma_attempts_tile_the_range(offsets[i], attempts[i]);
    }
    lemma_enough_bytes_are_the_ranges(offsets, len, pieces, ends);
    assert forall|i: int| 0 <= i < offsets.len() implies {
        &&& reached_by_attempts(#[trigger] offsets[i], attempts[i]) == range_stop(offsets[i], len)
        &&& tiles(
            delivered_by_attempts(offsets[i], attempts[i]),
            offsets[i].0 as int,
            range_stop(offsets[i], len),
        )
    } by {
        assert(ends[i] == range_stop(offsets[i], len));
        assert(tiles(pieces[i], offsets[i].0 as int, ends[i]));
    }
}

/// Ranges are fetched again at most `max_retries + 1` times, less those that
/// were fetched again before.
pub proof fn lemma_retries_are_bounded(
    t: Transfer,
    retries: u64,
    max_retries: u64,
    events: Seq<(bool, TransferEvent)>,
)
    requires
        retries <= max_retries + 1,
        possible_transfer(t, retries, max_retries, events),
    ensures
        retry_total(transfer_actions(t, retries, max_retries, events)) <= max_retries + 1
            - retries,
        transfer_after_all(t, retries, max_retries, events).1 == retries + retry_total(
            transfer_actions(t, retries, max_retries, events),
        ),
    decreases events.len(),
{
    if events.len() > 0 {
        let (cancelled, event) = events[0];
        let (next, next_retries, action) = t.after(cancelled, retries, max_retries, event);
        let rest = transfer_actions(next, next_retries, max_retries, events.skip(1));
        lemma_retries_are_bounded(next, next_retries, max_retries, events.skip(1));
        assert((seq![action] + rest).skip(1) == rest);
    }
}

/// Once a download in ranges has ended, nothing more can happen to it.
pub proof fn lemma_ended_is_final(t: Transfer, event: TransferEvent)
    requires
        t.phase == TransferPhase::Ended,
    ensures
        !t.accepts(event),
{
}

/// A cancelled download in ranges stops at its next decision, complete or not,
/// and waits for no further piece.
pub proof fn lemma_cancel_stops(t: Transfer, retries: u64, max_retries: u64, event: TransferEvent)
    requires
        t.accepts(event),
    ensures
        t.after(true, retries, max_retries, event).2 != TransferAction::Receive,
        event is Ready || event is NoFailure ==> t.after(true, retries, max_retries, event).2
            == TransferAction::Cancelled,
{
}

/// The ranges that the events report as failed, in order.
pub open spec fn failed_ranges(events: Seq<(bool, TransferEvent)>) -> Seq<(u64, u64)>
    decreases events.len(),
{
    if events.len() == 0 {
        Seq::empty()
    } else {
        let before = failed_ranges(events.drop_last());
        match events.last().1 {
            TransferEvent::Failure { start, end } => before.push((start, end)),
            _ => before,
        }
    }
}

/// The ranges that the actions have fetched again, in order.
pub open spec fn retried_ranges(actions: Seq<TransferAction>) -> Seq<(u64, u64)>
    decreases actions.len(),
{
    if actions.len() == 0 {
        Seq::empty()
    } else {
        let before = retried_ranges(actions.drop_last());
        match actions.last() {
            TransferAction::Retry { start, end } => before.push((start, end)),
            _ => before,
        }
    }
}

/// The number of bytes that arrived during the events.
pub open spec fn arrived_bytes(events: Seq<(bool, TransferEvent)>) -> int
    decreases events.len(),
{
    if events.len() == 0 {
        0
    } else {
        arrived_bytes(events.drop_last()) + match events.last().1 {
            TransferEvent::Received(n) => n as int,
            _ => 0,
        }
    }
}

/// Whether one call takes a download in ranges from one state to the other.
spec fn stepped(
    t: Transfer,
    retries: u64,
    max_retries: u64,
    event: (bool, TransferEvent),
    next: Transfer,
    next_retries: u64,
    action: TransferAction,
) -> bool {
    &&& t.ready_for(event.0, retries, max_retries, event.1)
    &&& (next, next_retries, action) == t.after(event.0, retries, max_retries, event.1)
}

/// Where a download in ranges stands after its first `n` calls.
proof fn lemma_transfer_up_to(
    ts: Seq<Transfer>,
    rs: Seq<u64>,
    max_retries: u64,
    events: Seq<(bool, TransferEvent)>,
    actions: Seq<TransferAction>,
    n: int,
)
    requires
        ts.len() == events.len() + 1,
        rs.len() == events.len() + 1,
        actions.len() == events.len(),
        ts[0].count == ts[0].bytes_on_disk,
        ts[0].phase == TransferPhase::Deciding,
        forall|i: int|
            0 <= i < events.len() ==> stepped(
                ts[i],
                rs[i],
                max_retries,
                events[i],
                ts[i + 1],
                rs[i + 1],
                #[trigger] actions[i],
            ),
        0 <= n <= events.len(),
    ensures
        ts[n].wf(),
        ts[n].ct_len == ts[0].ct_len,
        ts[n].bytes_on_disk == ts[0].bytes_on_disk,
        ts[n].count == ts[0].count + arrived_bytes(events.take(n)),
        rs[n] == rs[0] + retried_ranges(actions.take(n)).len(),
        retried_ranges(actions.take(n)) == if n > 0 && actions[n - 1] is GiveUp {
            failed_ranges(events.take(n)).drop_last()
        } else {
            failed_ranges(events.take(n))
        },
        n > 0 ==> ts[n].phase == match actions[n - 1] {
            TransferAction::Receive => TransferPhase::Receiving,
            TransferAction::Deliver => TransferPhase::Delivering,
            TransferAction::Poll => TransferPhase::Polling,
            TransferAction::Retry { .. } => TransferPhase::Deciding,
            _ => TransferPhase::Ended,
        },
    decreases n,
{
    if n > 0 {
        lemma_transfer_up_to(ts, rs, max_retries, events, actions, n - 1);
        assert(stepped(
            ts[n - 1],
            rs[n - 1],
            max_retries,
            events[n - 1],
            ts[n],
            rs[n],
            actions[n - 1],
        ));
        assert(events.take(n).drop_last() == events.take(n - 1));
        assert(actions.take(n).drop_last() == actions.take(n - 1));
        let failed = failed_ranges(events.take(n - 1));
        if let TransferEvent::Failure { start, end } = events[n - 1].1 {
            assert(failed.push((start, end)).drop_last() == failed);
        }
    } else {
        assert(events.take(0).len() == 0);
        assert(actions.take(0).len() == 0);
        assert(retried_ranges(actions.take(0)) == failed_ranges(events.take(0)));
    }
}

/// The ranges that are fetched again are those that are reported as failed, from
/// the same first to the same last offset and in the same order, but for the last
/// one where the download gives up on it. The law is about the calls of
/// [`HttpDownload::transfer_step`] that follow one another in a download, and
/// about what they return.
pub proof fn lemma_failed_ranges_are_fetched_again<H>(
    ts: Seq<Transfer>,
    rs: Seq<u64>,
    max_retries: u64,
    events: Seq<(bool, TransferEvent)>,
    actions: Seq<TransferAction>,
)
    requires
        ts.len() == events.len() + 1,
        rs.len() == events.len() + 1,
        actions.len() == events.len(),
        ts[0].wf(),
        ts[0].count == ts[0].bytes_on_disk,
        ts[0].phase == TransferPhase::Deciding,
        forall|i: int|
            #![trigger actions[i]]
            0 <= i < events.len() ==> exists|d: &mut HttpDownload<H>, t: &mut Transfer|
                {
                    &&& d.is_cancel == events[i].0
                    &&& d.conf.max_retries == max_retries
                    &&& d.retries == rs[i]
                    &&& final(d).retries == rs[i + 1]
                    &&& *t == ts[i]
                    &&& *final(t) == ts[i + 1]
                    &&& t.ready_for(d.is_cancel, d.retries, max_retries, events[i].1)
                    &&& #[trigger] call_ensures(
                        HttpDownload::<H>::transfer_step,
                        (d, t, events[i].1),
                        actions[i],
                    )
                },
    ensures
        retried_ranges(actions) == if actions.len() > 0 && actions.last() is GiveUp {
            failed_ranges(events).drop_last()
        } else {
            failed_ranges(events)
        },
        rs.last() == rs[0] + retried_ranges(actions).len(),
{
    assert forall|i: int| 0 <= i < events.len() implies stepped(
        ts[i],
        rs[i],
        max_retries,
        events[i],
        ts[i + 1],
        rs[i + 1],
        #[trigger] actions[i],
    ) by {
        let (d, t) = choose|d: &mut HttpDownload<H>, t: &mut Transfer|
            {
                &&& d.is_cancel == events[i].0
                &&& d.conf.max_retries == max_retries
                &&& d.retries == rs[i]
                &&& final(d).retries == rs[i + 1]
                &&& *t == ts[i]
                &&& *final(t) == ts[i + 1]
                &&& t.ready_for(d.is_cancel, d.retries, max_retries, events[i].1)
                &&& #[trigger] call_ensures(
                    HttpDownload::<H>::transfer_step,
                    (d, t, events[i].1),
                    actions[i],
                )
            };
        assert(call_ensures(
            HttpDownload::<H>::transfer_step,
            (d, t, events[i].1),
            actions[i],
        ));
    }
    lemma_transfer_up_to(ts, rs, max_retries, events, actions, events.len() as int);
    assert(events.take(events.len() as int) == events);
    assert(actions.take(actions.len() as int) == actions);
}

/// What is done for a download in ranges follows from what happened up to there.
/// At a decision it stops where it is cancelled, is complete where as many bytes
/// arrived as there are, and goes on otherwise. Each piece is given to the
/// observers; each time a piece was given, or none came, a failed range is looked
/// for. A failed range is fetched again, from the first to the last offset that
/// the failure names, unless more than `max_retries` were before.
pub proof fn lemma_what_is_done_for_a_download<H>(
    ts: Seq<Transfer>,
    rs: Seq<u64>,
    max_retries: u64,
    events: Seq<(bool, TransferEvent)>,
    actions: Seq<TransferAction>,
)
    requires
        events.len() > 0,
        ts.len() == events.len() + 1,
        rs.len() == events.len() + 1,
        actions.len() == events.len(),
        ts[0].wf(),
        ts[0].count == ts[0].bytes_on_disk,
        ts[0].phase == TransferPhase::Deciding,
        forall|i: int|
            #![trigger actions[i]]
            0 <= i < events.len() ==> exists|d: &mut HttpDownload<H>, t: &mut Transfer|
                {
                    &&& d.is_cancel == events[i].0
                    &&& d.conf.max_retries == max_retries
                    &&& d.retries == rs[i]
                    &&& final(d).retries == rs[i + 1]
                    &&& *t == ts[i]
                    &&& *final(t) == ts[i + 1]
                    &&& t.ready_for(d.is_cancel, d.retries, max_retries, events[i].1)
                    &&& #[trigger] call_ensures(
                        HttpDownload::<H>::transfer_step,
                        (d, t, events[i].1),
                        actions[i],
                    )
                },
    ensures
        ({
            let action = actions.last();
            match events.last().1 {
                TransferEvent::Ready | TransferEvent::NoFailure => if events.last().0 {
                    action == TransferAction::Cancelled
                } else if arrived_bytes(events) == ts[0].ct_len {
                    action == TransferAction::Complete
                } else {
                    action == TransferAction::Receive
                },
                TransferEvent::Received(_) => action == TransferAction::Deliver,
                TransferEvent::NothingReceived | TransferEvent::Delivered => action
                    == TransferAction::Poll,
                TransferEvent::DeliveryFailed => action == TransferAction::Abort,
                TransferEvent::Failure { start, end } => if rs[0] + retried_ranges(
                    actions.drop_last(),
                ).len() > max_retries {
                    action == TransferAction::GiveUp
                } else {
                    action == (TransferAction::Retry { start, end })
                },
            }
        }),
{
    assert forall|i: int| 0 <= i < events.len() implies stepped(
        ts[i],
        rs[i],
        max_retries,
        events[i],
        ts[i + 1],
        rs[i + 1],
        #[trigger] actions[i],
    ) by {
        let (d, t) = choose|d: &mut HttpDownload<H>, t: &mut Transfer|
            {
                &&& d.is_cancel == events[i].0
                &&& d.conf.max_retries == max_retries
                &&& d.retries == rs[i]
                &&& final(d).retries == rs[i + 1]
                &&& *t == ts[i]
                &&& *final(t) == ts[i + 1]
                &&& t.ready_for(d.is_cancel, d.retries, max_retries, events[i].1)
                &&& #[trigger] call_ensures(
                    HttpDownload::<H>::transfer_step,
                    (d, t, events[i].1),
                    actions[i],
                )
            };
        assert(call_ensures(
            HttpDownload::<H>::transfer_step,
            (d, t, events[i].1),
            actions[i],
        ));
    }
    let n = events.len() as int;
    lemma_transfer_up_to(ts, rs, max_retries, events, actions, n - 1);
    assert(stepped(
        ts[n - 1],
        rs[n - 1],
        max_retries,
        events[n - 1],
        ts[n],
        rs[n],
        actions[n - 1],
    ));
    assert(events.take(n - 1) == events.drop_last());
    assert(actions.take(n - 1) == actions.drop_last());
}

/// Whatever can come of what is done for a download in ranges can be taken note
/// of, as far as its bytes and the ranges fetched again can be counted.
pub proof fn lemma_download_takes_every_event<H>(
    ts: Seq<Transfer>,
    rs: Seq<u64>,
    max_retries: u64,
    events: Seq<(bool, TransferEvent)>,
    actions: Seq<TransferAction>,
    event: TransferEvent,
)
    requires
        ts.len() == events.len() + 1,
        rs.len() == events.len() + 1,
        actions.len() == events.len(),
        ts[0].wf(),
        ts[0].count == ts[0].bytes_on_disk,
        ts[0].phase == TransferPhase::Deciding,
        forall|i: int|
            #![trigger actions[i]]
            0 <= i < events.len() ==> exists|d: &mut HttpDownload<H>, t: &mut Transfer|
                {
                    &&& d.is_cancel == events[i].0
                    &&& d.conf.max_retries == max_retries
                    &&& d.retries == rs[i]
                    &&& final(d).retries == rs[i + 1]
                    &&& *t == ts[i]
                    &&& *final(t) == ts[i + 1]
                    &&& t.ready_for(d.is_cancel, d.retries, max_retries, events[i].1)
                    &&& #[trigger] call_ensures(
                        HttpDownload::<H>::transfer_step,
                        (d, t, events[i].1),
                        actions[i],
                    )
                },
        ts[0].ct_len + ts[0].bytes_on_disk <= u64::MAX,
        if events.len() == 0 {
            event == TransferEvent::Ready
        } else {
            match actions.last() {
                TransferAction::Receive => match event {
                    TransferEvent::Received(n) => ts[0].bytes_on_disk + arrived_bytes(events) + n
                        <= u64::MAX,
                    _ => event == TransferEvent::NothingReceived,
                },
                TransferAction::Deliver => event == TransferEvent::Delivered || event
                    == TransferEvent::DeliveryFailed,
                TransferAction::Poll => event == TransferEvent::NoFailure || (event is Failure
                    && (rs.last() < u64::MAX || max_retries < u64::MAX)),
                TransferAction::Retry { .. } => event == TransferEvent::Ready,
                _ => false,
            }
        },
    ensures
        forall|d: &mut HttpDownload<H>, t: &mut Transfer|
            *t == ts.last() && d.retries == rs.last() && d.conf.max_retries == max_retries
                ==> #[trigger] call_requires(HttpDownload::<H>::transfer_step, (d, t, event)),
{
    assert forall|i: int| 0 <= i < events.len() implies stepped(
        ts[i],
        rs[i],
        max_retries,
        events[i],
        ts[i + 1],
        rs[i + 1],
        #[trigger] actions[i],
    ) by {
        let (d, t) = choose|d: &mut HttpDownload<H>, t: &mut Transfer|
            {
                &&& d.is_cancel == events[i].0
                &&& d.conf.max_retries == max_retries
                &&& d.retries == rs[i]
                &&& final(d).retries == rs[i + 1]
                &&& *t == ts[i]
                &&& *final(t) == ts[i + 1]
                &&& t.ready_for(d.is_cancel, d.retries, max_retries, events[i].1)
                &&& #[trigger] call_ensures(
                    HttpDownload::<H>::transfer_step,
                    (d, t, events[i].1),
                    actions[i],
                )
            };
        assert(call_ensures(
            HttpDownload::<H>::transfer_step,
            (d, t, events[i].1),
            actions[i],
        ));
    }
    let n = events.len() as int;
    lemma_transfer_up_to(ts, rs, max_retries, events, actions, n);
    assert(events.take(n) == events);
}

/// A step of a download in ranges leaves the download as it is, but for the number
/// of ranges that were fetched again.
pub proof fn lemma_step_keeps_the_download<H>(event: TransferEvent, action: TransferAction)
    ensures
        forall|d: &mut HttpDownload<H>, t: &mut Transfer|
            #[trigger] call_ensures(HttpDownload::<H>::transfer_step, (d, t, event), action) ==> {
                &&& final(d).url == d.url
                &&& final(d).hooks == d.hooks
                &&& final(d).conf == d.conf
                &&& final(d).is_cancel == d.is_cancel
            },
{
}

/// A download begins with no observer, no range fetched again and not cancelled.
pub proof fn lemma_download_begins<H>(url: Address, conf: Config, d: HttpDownload<H>)
    requires
        call_ensures(HttpDownload::<H>::new, (url, conf), d),
    ensures
        d.url == url,
        d.conf == conf,
        d.hooks@.len() == 0,
        d.retries == 0,
        !d.is_cancel,
{
}

/// A cancel changes nothing but that the download is cancelled, whether it was
/// before or not.
pub proof fn lemma_cancel_only_cancels<H>()
    ensures
        forall|d: &mut HttpDownload<H>|
            #[trigger] call_ensures(HttpDownload::<H>::cancel, (d,), ()) ==> {
                &&& final(d).is_cancel
                &&& final(d).url == d.url
                &&& final(d).hooks == d.hooks
                &&& final(d).conf == d.conf
                &&& final(d).retries == d.retries
            },
{
}

/// An observer that is added is the last one, and those before it are as they
/// were. What comes back is the download itself.
pub proof fn lemma_observer_is_added_last<H>(hk: H)
    ensures
        forall|d: &mut HttpDownload<H>, r: &mut HttpDownload<H>|
            #[trigger] call_ensures(HttpDownload::<H>::events_hook, (d, hk), r) ==> {
                &&& r.hooks@.len() == d.hooks@.len() + 1
                &&& r.hooks@.last() == hk
                &&& r.hooks@.drop_last() == d.hooks@
                &&& r.url == d.url
                &&& r.conf == d.conf
                &&& r.retries == d.retries
                &&& r.is_cancel == d.is_cancel
                &&& *final(d) == *final(r)
            },
{
    assert forall|d: &mut HttpDownload<H>, r: &mut HttpDownload<H>|
        #[trigger] call_ensures(HttpDownload::<H>::events_hook, (d, hk), r) implies {
        &&& r.hooks@.len() == d.hooks@.len() + 1
        &&& r.hooks@.last() == hk
        &&& r.hooks@.drop_last() == d.hooks@
        &&& r.url == d.url
        &&& r.conf == d.conf
        &&& r.retries == d.retries
        &&& r.is_cancel == d.is_cancel
        &&& *final(d) == *final(r)
    } by {
        assert(d.hooks@.push(hk).drop_last() == d.hooks@);
    }
}

/// A copy of a configuration agrees with it in every part.
pub proof fn lemma_copy_of_a_configuration(conf: Config, copy: Config)
    requires
        call_ensures(Config::clone, (&conf,), copy),
    ensures
        copy.user_agent@ == conf.user_agent@,
        copy.resume == conf.resume,
        header_entries(copy.headers) == header_entries(conf.headers),
        copy.file@ == conf.file@,
        copy.timeout == conf.timeout,
        copy.concurrent == conf.concurrent,
        copy.max_retries == conf.max_retries,
        copy.num_workers == conf.num_workers,
        copy.bytes_on_disk == conf.bytes_on_disk,
        match (conf.chunk_offsets, copy.chunk_offsets) {
            (Some(offsets), Some(copied)) => copied@ == offsets@,
            (None, None) => true,
            _ => false,
        },
        copy.chunk_size == conf.chunk_size,
        copy.quiet_mode == conf.quiet_mode,
{
}

/// The first request asks for the address within the time limit. It carries every
/// header that all requests carry, with all of its values; the user agent stands
/// behind the values that its header has already. A user agent of printable
/// characters is always taken where there are few headers.
pub proof fn lemma_first_request<H>(
    d: HttpDownload<H>,
    r: Result<RequestPlan, HeaderError>,
    name: Seq<char>,
)
    requires
        call_ensures(HttpDownload::<H>::probe_request, (&d,), r),
    ensures
        ({
            let before = header_entries(d.conf.headers);
            let agent = vstd::utf8::encode_utf8(d.conf.user_agent@);
            &&& r matches Ok(request) ==> {
                let after = header_entries(request.headers);
                &&& request.url@ == d.url.text@
                &&& request.timeout == d.conf.timeout
                &&& after.contains_key("user-agent"@)
                &&& after["user-agent"@].last() == agent
                &&& if before.contains_key("user-agent"@) {
                    after["user-agent"@].drop_last() == before["user-agent"@]
                } else {
                    after["user-agent"@].len() == 1
                }
                &&& name != "user-agent"@ ==> {
                    &&& after.contains_key(name) == before.contains_key(name)
                    &&& before.contains_key(name) ==> after[name] == before[name]
                }
            }
            &&& r == Err::<RequestPlan, HeaderError>(HeaderError::InvalidValue) <==> exists|i: int|
                0 <= i < agent.len() && (#[trigger] agent[i] == 127 || (agent[i] < 32 && agent[i]
                    != 9))
            &&& (forall|i: int|
                0 <= i < d.conf.user_agent@.len() ==> ' ' <= #[trigger] d.conf.user_agent@[i]
                    <= '~') && before.dom().len() < 6_000 ==> r is Ok
        }),
{
    let before = header_entries(d.conf.headers);
    let agent = vstd::utf8::encode_utf8(d.conf.user_agent@);
    lemma_what_no_value_holds(agent);
    if before.contains_key("user-agent"@) {
        assert(before["user-agent"@].push(agent).drop_last() == before["user-agent"@]);
    }
    if forall|i: int|
        0 <= i < d.conf.user_agent@.len() ==> ' ' <= #[trigger] d.conf.user_agent@[i] <= '~' {
        lemma_printable_is_value(d.conf.user_agent@);
    }
}

/// What the first answer decides. A server that names `bytes` first as what it
/// accepts ranges of can resume where the requests asked for a range, and is asked
/// for ranges side by side where that is wanted and it tells the length; then, and
/// where it can resume and ranges were wanted, no request for the content has a
/// range of its own. Nothing else of the download changes.
pub proof fn lemma_first_answer_decides<H>(
    response: HeaderMap<HeaderValue>,
    plan: DownloadPlan,
    name: Seq<char>,
)
    ensures
        forall|d: &mut HttpDownload<H>|
            #[trigger] call_ensures(HttpDownload::<H>::download, (d, &response), plan) ==> {
                let told = header_entries(response);
                let before = header_entries(d.conf.headers);
                let after = header_entries(final(d).conf.headers);
                let bytes = told.contains_key("accept-ranges"@) && told["accept-ranges"@][0]
                    == vstd::utf8::encode_utf8("bytes"@);
                &&& plan.supports_resume == (bytes && before.contains_key("range"@))
                &&& plan.mode is Concurrent == (bytes && d.conf.concurrent && told.contains_key(
                    "content-length"@,
                ))
                &&& plan.mode matches TransferMode::Concurrent(value) ==> value@
                    == told["content-length"@][0]
                &&& plan.request.url@ == d.url.text@
                &&& plan.request.timeout == d.conf.timeout
                &&& header_entries(plan.request.headers) == after
                &&& bytes && d.conf.concurrent ==> !after.contains_key("range"@)
                &&& !bytes || !d.conf.concurrent || name != "range"@ ==> {
                    &&& after.contains_key(name) == before.contains_key(name)
                    &&& before.contains_key(name) ==> after[name] == before[name]
                }
                &&& final(d).url == d.url
                &&& final(d).hooks == d.hooks
                &&& final(d).retries == d.retries
                &&& final(d).is_cancel == d.is_cancel
                &&& final(d).conf == (Config { headers: final(d).conf.headers, ..d.conf })
            },
{
}

/// The answer to the first request is an event that says what was decided.
pub proof fn lemma_answer_tells_the_plan(plan: DownloadPlan, event: HttpEvent)
    requires
        call_ensures(DownloadPlan::answer, (&plan,), event),
    ensures
        event matches HttpEvent::Answered { supports_resume, ranged } && supports_resume
            == plan.supports_resume && ranged == (plan.mode is Concurrent),
{
}

/// A download in ranges starts with the length that the server told, the number of
/// bytes that an earlier download left, and nothing arrived. Its ranges are those
/// that the earlier download left, or else those that the whole content is cut
/// into.
pub proof fn lemma_download_in_ranges_starts<H>(
    d: HttpDownload<H>,
    ct_val: &[u8],
    length: nat,
    r: Result<ConcurrentPlan, LengthError>,
    cut: Vec<(u64, u64)>,
)
    requires
        call_ensures(HttpDownload::<H>::concurrent_download, (&d, ct_val), r),
        length <= u64::MAX,
        ct_val@ == vstd::utf8::encode_utf8(decimal(length)),
        call_ensures(chunk_offsets, (length as u64, d.conf.chunk_size), cut),
    ensures
        r matches Ok(plan) && {
            &&& plan.transfer.ct_len == length
            &&& plan.transfer.phase == TransferPhase::Deciding
            &&& plan.transfer.count == plan.transfer.bytes_on_disk
            &&& match d.conf.bytes_on_disk {
                Some(n) => plan.transfer.bytes_on_disk == n,
                None => plan.transfer.bytes_on_disk == 0,
            }
            &&& match d.conf.chunk_offsets {
                Some(offsets) => plan.chunk_offsets@ == offsets@,
                None => plan.chunk_offsets@ == cut@,
            }
        },
{
    lemma_length_is_read_back(length);
    if let Ok(plan) = r {
        if d.conf.chunk_offsets is None {
            lemma_same_offsets(plan.chunk_offsets@, cut@);
        }
    }
}

proof fn lemma_same_offsets(a: Seq<(u64, u64)>, b: Seq<(u64, u64)>)
    requires
        offset_ints(a) == offset_ints(b),
    ensures
        a == b,
{
    assert(offset_ints(a).len() == a.len());
    assert(offset_ints(b).len() == b.len());
    assert forall|i: int| 0 <= i < a.len() implies a[i] == b[i] by {
        assert(offset_ints(a)[i] == (a[i].0 as int, a[i].1 as int));
        assert(offset_ints(b)[i] == (b[i].0 as int, b[i].1 as int));
        assert(a[i].0 == b[i].0 && a[i].1 == b[i].1);
    }
    assert(a =~= b);
}

/// A content whose length is no number, or no text, is not downloaded in ranges.
pub proof fn lemma_download_without_a_length<H>(
    d: HttpDownload<H>,
    ct_val: &[u8],
    r: Result<ConcurrentPlan, LengthError>,
)
    requires
        call_ensures(HttpDownload::<H>::concurrent_download, (&d, ct_val), r),
        exists|i: int|
            0 <= i < ct_val@.len() && !(48 <= #[trigger] ct_val@[i] <= 57) && (i > 0 || ct_val@[i]
                != 43 || ct_val@.len() == 1),
    ensures
        r is Err,
        r == Err::<ConcurrentPlan, LengthError>(LengthError::NotText) <==> exists|i: int|
            0 <= i < ct_val@.len() && (#[trigger] ct_val@[i] >= 127 || (ct_val@[i] < 32
                && ct_val@[i] != 9)),
{
    lemma_length_needs_digits(ct_val@);
}

/// A download cuts content as any content is cut.
pub proof fn lemma_download_cuts_as_usual<H>(
    d: HttpDownload<H>,
    ct_len: u64,
    chunk_size: u64,
    r: Vec<(u64, u64)>,
    cut: Vec<(u64, u64)>,
)
    requires
        call_ensures(HttpDownload::<H>::get_chunk_offsets, (&d, ct_len, chunk_size), r),
        call_ensures(chunk_offsets, (ct_len, chunk_size), cut),
    ensures
        r@ == cut@,
{
    lemma_same_offsets(r@, cut@);
}

/// A download from start to end fails exactly where something failed, gives a piece
/// to the observers exactly where one arrived and it is not cancelled, reads on
/// exactly where it has just connected or given a piece, and ends otherwise: at the
/// end of the answer, or with a piece that finds it cancelled.
pub proof fn lemma_what_is_done_from_start_to_end<H>(
    d: HttpDownload<H>,
    event: StreamEvent,
    action: StreamAction,
)
    requires
        call_ensures(HttpDownload::<H>::singlethread_download, (&d, event), action),
    ensures
        action is Fail <==> event is ConnectFailed || event is ReadFailed || event
            is DeliveryFailed,
        action is Deliver <==> event is Chunk && !d.is_cancel,
        action is Read <==> event is Connected || event is Delivered,
        action is Finish <==> event is End || (event is Chunk && d.is_cancel),
{
}

/// A download is shown by its address.
pub proof fn lemma_download_is_shown_by_its_address<H>(d: HttpDownload<H>, text: String)
    requires
        call_ensures(HttpDownload::<H>::debug_text, (&d,), text),
    ensures
        text@.len() == 18 + d.url.text@.len(),
        text@.skip(18) == d.url.text@,
        text@.take(18) == "HttpDownload url: "@,
{
    reveal_strlit("HttpDownload url: ");
    assert(text@.skip(18) == d.url.text@);
    assert(text@.take(18) == "HttpDownload url: "@);
}

/// Each observer of a download in turn is given the whole piece until one reports an
/// error, which is then the result. Nothing else of the download changes.
pub proof fn lemma_download_gives_content_in_order<H: EventsHandler>(
    contents: &[u8],
    told: spec_fn(H) -> (H, Result<(), HookError>),
    r: Result<(), HookError>,
)
    requires
        forall|h: &mut H, done: Result<(), HookError>|
            #[trigger] call_ensures(H::on_content, (h, contents), done) ==> (
                *final(h),
                done,
            ) == told(*h),
    ensures
        forall|d: &mut HttpDownload<H>|
            #[trigger] call_ensures(HttpDownload::<H>::send_content, (d, contents), r) ==> {
                let (_, after, reported) = in_turn_until_error(
                    |_s: (), h: H| ((), told(h).0, told(h).1),
                    (),
                    d.hooks@,
                );
                &&& final(d).hooks@ == after
                &&& reported is Err ==> r == reported
                &&& reported is Ok ==> r is Ok
                &&& final(d).url == d.url
                &&& final(d).conf == d.conf
                &&& final(d).retries == d.retries
                &&& final(d).is_cancel == d.is_cancel
            },
{
    let with_state = |_s: (), h: H| ((), told(h).0, told(h).1);
    assert forall|d: &mut HttpDownload<H>|
        #[trigger] call_ensures(HttpDownload::<H>::send_content, (d, contents), r) implies {
        let (_, after, reported) = in_turn_until_error(with_state, (), d.hooks@);
        &&& final(d).hooks@ == after
        &&& reported is Err ==> r == reported
        &&& reported is Ok ==> r is Ok
        &&& final(d).url == d.url
        &&& final(d).conf == d.conf
        &&& final(d).retries == d.retries
        &&& final(d).is_cancel == d.is_cancel
    } by {
        let calls = choose|calls: Seq<(&mut H, Result<(), HookError>)>|
            {
                &&& #[trigger] calls.len() <= d.hooks@.len()
                &&& forall|i: int|
                    #![trigger calls[i]]
                    #![trigger final(d).hooks@[i]]
                    0 <= i < calls.len() ==> {
                        &&& *calls[i].0 == d.hooks@[i]
                        &&& *final(calls[i].0) == final(d).hooks@[i]
                        &&& call_ensures(H::on_content, (calls[i].0, contents), calls[i].1)
                        &&& i < calls.len() - 1 ==> calls[i].1 is Ok
                    }
                &&& forall|i: int|
                    calls.len() <= i < d.hooks@.len() ==> #[trigger] final(d).hooks@[i]
                        == d.hooks@[i]
                &&& if calls.len() > 0 && calls.last().1 is Err {
                    r == calls.last().1
                } else {
                    r is Ok && calls.len() == d.hooks@.len()
                }
            };
        let n = d.hooks@.len() as int;
        let results = Seq::new(calls.len(), |i: int| calls[i].1);
        let states = Seq::new(calls.len() + 1, |i: int| ());
        assert forall|i: int| 0 <= i < results.len() implies (
            states[i + 1],
            #[trigger] final(d).hooks@[i],
            results[i],
        ) == with_state(states[i], d.hooks@[i]) by {
            let call = calls[i];
            assert(call_ensures(H::on_content, (call.0, contents), call.1));
        }
        assert forall|i: int| 0 <= i < results.len() - 1 implies #[trigger] results[i] is Ok by {
            assert(calls[i].1 is Ok);
        }
        lemma_in_turn_until_error(with_state, states, results, d.hooks@, final(d).hooks@, n);
        assert(d.hooks@.take(n) == d.hooks@);
        assert(final(d).hooks@.take(n) == final(d).hooks@);
    }
}

/// Each observer of a download in turn is given the piece of a range, with its number
/// of bytes and its offset, until one reports an error, which is then the result.
/// Nothing else of the download changes.
pub proof fn lemma_download_gives_ranged_content_in_order<H: EventsHandler>(
    content: (u64, u64, &[u8]),
    told: spec_fn(H) -> (H, Result<(), HookError>),
    r: Result<(), HookError>,
)
    requires
        forall|h: &mut H, done: Result<(), HookError>|
            #[trigger] call_ensures(H::on_concurrent_content, (h, content), done) ==> (
                *final(h),
                done,
            ) == told(*h),
    ensures
        forall|d: &mut HttpDownload<H>|
            #[trigger] call_ensures(
                HttpDownload::<H>::send_concurrent_content,
                (d, content),
                r,
            ) ==> {
                let (_, after, reported) = in_turn_until_error(
                    |_s: (), h: H| ((), told(h).0, told(h).1),
                    (),
                    d.hooks@,
                );
                &&& final(d).hooks@ == after
                &&& reported is Err ==> r == reported
                &&& reported is Ok ==> r is Ok
                &&& final(d).url == d.url
                &&& final(d).conf == d.conf
                &&& final(d).retries == d.retries
                &&& final(d).is_cancel == d.is_cancel
            },
{
    let with_state = |_s: (), h: H| ((), told(h).0, told(h).1);
    assert forall|d: &mut HttpDownload<H>|
        #[trigger] call_ensures(
            HttpDownload::<H>::send_concurrent_content,
            (d, content),
            r,
        ) implies {
        let (_, after, reported) = in_turn_until_error(with_state, (), d.hooks@);
        &&& final(d).hooks@ == after
        &&& reported is Err ==> r == reported
        &&& reported is Ok ==> r is Ok
        &&& final(d).url == d.url
        &&& final(d).conf == d.conf
        &&& final(d).retries == d.retries
        &&& final(d).is_cancel == d.is_cancel
    } by {
        let calls = choose|calls: Seq<(&mut H, Result<(), HookError>)>|
            {
                &&& #[trigger] calls.len() <= d.hooks@.len()
                &&& forall|i: int|
                    #![trigger calls[i]]
                    #![trigger final(d).hooks@[i]]
                    0 <= i < calls.len() ==> {
                        &&& *calls[i].0 == d.hooks@[i]
                        &&& *final(calls[i].0) == final(d).hooks@[i]
                        &&& call_ensures(
                            H::on_concurrent_content,
                            (calls[i].0, content),
                            calls[i].1,
                        )
                        &&& i < calls.len() - 1 ==> calls[i].1 is Ok
                    }
                &&& forall|i: int|
                    calls.len() <= i < d.hooks@.len() ==> #[trigger] final(d).hooks@[i]
                        == d.hooks@[i]
                &&& if calls.len() > 0 && calls.last().1 is Err {
                    r == calls.last().1
                } else {
                    r is Ok && calls.len() == d.hooks@.len()
                }
            };
        let n = d.hooks@.len() as int;
        let results = Seq::new(calls.len(), |i: int| calls[i].1);
        let states = Seq::new(calls.len() + 1, |i: int| ());
        assert forall|i: int| 0 <= i < results.len() implies (
            states[i + 1],
            #[trigger] final(d).hooks@[i],
            results[i],
        ) == with_state(states[i], d.hooks@[i]) by {
            let call = calls[i];
            assert(call_ensures(H::on_concurrent_content, (call.0, content), call.1));
        }
        assert forall|i: int| 0 <= i < results.len() - 1 implies #[trigger] results[i] is Ok by {
            assert(calls[i].1 is Ok);
        }
        lemma_in_turn_until_error(with_state, states, results, d.hooks@, final(d).hooks@, n);
        assert(d.hooks@.take(n) == d.hooks@);
        assert(final(d).hooks@.take(n) == final(d).hooks@);
    }
}

/// A download in ranges has the length that is read from the value that the server
/// told, and does not start where none can be read.
pub proof fn lemma_length_of_a_download_in_ranges<H>(
    d: HttpDownload<H>,
    ct_val: &[u8],
    r: Result<ConcurrentPlan, LengthError>,
    length: Result<u64, LengthError>,
)
    requires
        call_ensures(HttpDownload::<H>::concurrent_download, (&d, ct_val), r),
        call_ensures(parse_length, (ct_val,), length),
    ensures
        match (r, length) {
            (Ok(plan), Ok(n)) => plan.transfer.ct_len == n,
            (Err(e), Err(error)) => e == error,
            _ => false,
        },
{
}

} // verus!
