//! The course of a download over HTTP, from the first request to the end, and
//! what the observers are told on the way.
use vstd::prelude::*;

use crate::http::{stream_action, HttpDownload, StreamAction, StreamEvent};
use crate::http::{Transfer, TransferAction, TransferEvent, TransferPhase};

verus! {

/// How far a download from start to end has come.
#[derive(Clone, Copy, Debug, PartialEq, Eq, Structural)]
pub enum StreamPhase {
    /// The request for the content is being made.
    Connecting,
    /// A piece is awaited.
    Reading,
    /// The observers are given a piece.
    Delivering,
}

/// How far a download has come. `ranged` says whether the content will be
/// fetched in ranges.
#[derive(Clone, Copy, Debug, PartialEq, Eq, Structural)]
pub enum HttpStage {
    /// The first request is being made.
    Probing,
    /// The observers are told that the server can resume.
    TellingResume { ranged: bool },
    /// The request for the content is being put together.
    Building { ranged: bool },
    /// The observers are told the headers.
    TellingHeaders { ranged: bool },
    /// The download in ranges is being started.
    Starting,
    /// The content is fetched from start to end.
    Single(StreamPhase),
    /// The content is fetched in ranges.
    Ranged(Transfer),
    /// The observers are told that there were too many failures.
    TellingMaxRetries,
    /// The observers are told that the download is over.
    TellingFinish,
    /// The download is over, without an error.
    Done,
    /// The download is over, with an error.
    Failed,
}

/// What happened to a download.
#[derive(Clone, Copy, Debug, PartialEq, Eq, Structural)]
pub enum HttpEvent {
    /// The server answered the first request.
    Answered { supports_resume: bool, ranged: bool },
    /// The first request could not be made.
    Unanswered,
    /// The observers were told.
    Told,
    /// The request for the content is ready.
    Built,
    /// The request for the content could not be put together.
    NotBuilt,
    /// The download in ranges was started.
    Started(Transfer),
    /// The download in ranges could not be started.
    NotStarted,
    /// Something happened while the content was fetched from start to end.
    Single(StreamEvent),
    /// Something happened while the content was fetched in ranges.
    Ranged(TransferEvent),
}

/// What is to be done next for a download.
#[derive(Clone, Copy, Debug, PartialEq, Eq, Structural)]
pub enum HttpAction {
    /// Tell the observers that the server can resume.
    TellResume,
    /// Put the request for the content together.
    Build,
    /// Tell the observers the headers of the first answer.
    TellHeaders,
    /// Start the download in ranges.
    Start,
    /// Make the request for the content.
    Connect,
    /// Read the next piece of the content.
    Read,
    /// Give the piece that was read to the observers.
    Deliver,
    /// Wait for a piece of a range.
    Receive,
    /// Give the piece of a range to the observers.
    DeliverRanged,
    /// Look for a range whose fetching failed.
    Poll,
    /// Fetch the offsets from `start` to `end` again.
    Retry { start: u64, end: u64 },
    /// Tell the observers that there were too many failures.
    TellMaxRetries,
    /// Tell the observers that the download is over.
    TellFinish,
    /// Stop.
    Succeed,
    /// Stop with the error that just came up.
    Fail,
}

impl HttpStage {
    pub open spec fn wf(self) -> bool {
        self matches HttpStage::Ranged(t) ==> t.wf()
    }

    /// The events that can happen now, in a download that was cancelled or not
    /// and in which `retries` ranges were fetched again.
    pub open spec fn accepts(
        self,
        cancelled: bool,
        retries: u64,
        max_retries: u64,
        event: HttpEvent,
    ) -> bool {
        match (self, event) {
            (HttpStage::Probing, HttpEvent::Answered { .. }) => true,
            (HttpStage::Probing, HttpEvent::Unanswered) => true,
            (HttpStage::TellingResume { .. }, HttpEvent::Told) => true,
            (HttpStage::Building { .. }, HttpEvent::Built) => true,
            (HttpStage::Building { .. }, HttpEvent::NotBuilt) => true,
            (HttpStage::TellingHeaders { .. }, HttpEvent::Told) => true,
            (HttpStage::Starting, HttpEvent::Started(t)) => t.wf() && t.ready_for(
                cancelled,
                retries,
                max_retries,
                TransferEvent::Ready,
            ),
            (HttpStage::Starting, HttpEvent::NotStarted) => true,
            (HttpStage::Single(phase), HttpEvent::Single(event)) => stream_accepts(phase, event),
            (HttpStage::Ranged(t), HttpEvent::Ranged(event)) => t.ready_for(
                cancelled,
                retries,
                max_retries,
                event,
            ),
            (HttpStage::TellingMaxRetries, HttpEvent::Told) => true,
            (HttpStage::TellingFinish, HttpEvent::Told) => true,
            _ => false,
        }
    }

    /// What an event leads to: the next stage, the number of ranges that were
    /// fetched again then, and what is to be done.
    pub open spec fn after(
        self,
        cancelled: bool,
        retries: u64,
        max_retries: u64,
        event: HttpEvent,
    ) -> (HttpStage, u64, HttpAction) {
        match (self, event) {
            (HttpStage::Probing, HttpEvent::Answered { supports_resume, ranged }) => {
                if supports_resume {
                    (HttpStage::TellingResume { ranged }, retries, HttpAction::TellResume)
                } else {
                    (HttpStage::Building { ranged }, retries, HttpAction::Build)
                }
            },
            (HttpStage::TellingResume { ranged }, _) => (
                HttpStage::Building { ranged },
                retries,
                HttpAction::Build,
            ),
            (HttpStage::Building { ranged }, HttpEvent::Built) => (
                HttpStage::TellingHeaders { ranged },
                retries,
                HttpAction::TellHeaders,
            ),
            (HttpStage::TellingHeaders { ranged }, _) => if ranged {
                (HttpStage::Starting, retries, HttpAction::Start)
            } else {
                (HttpStage::Single(StreamPhase::Connecting), retries, HttpAction::Connect)
            },
            (HttpStage::Starting, HttpEvent::Started(t)) => ranged_after(
                t.after(cancelled, retries, max_retries, TransferEvent::Ready),
            ),
            (HttpStage::Single(_), HttpEvent::Single(event)) => {
                let (next, action) = single_after(stream_action(cancelled, event));
                (next, retries, action)
            },
            (HttpStage::Ranged(t), HttpEvent::Ranged(event)) => ranged_after(
                t.after(cancelled, retries, max_retries, event),
            ),
            (HttpStage::TellingMaxRetries, _) => (
                HttpStage::TellingFinish,
                retries,
                HttpAction::TellFinish,
            ),
            (HttpStage::TellingFinish, _) => (HttpStage::Done, retries, HttpAction::Succeed),
            _ => (HttpStage::Failed, retries, HttpAction::Fail),
        }
    }
}

/// The events that can happen to a download from start to end.
pub open spec fn stream_accepts(phase: StreamPhase, event: StreamEvent) -> bool {
    match phase {
        StreamPhase::Connecting => event is Connected || event is ConnectFailed,
        StreamPhase::Reading => event is Chunk || event is End || event is ReadFailed,
        StreamPhase::Delivering => event is Delivered || event is DeliveryFailed,
    }
}

/// What a step of a download from start to end means for the whole download.
pub open spec fn single_after(action: StreamAction) -> (HttpStage, HttpAction) {
    match action {
        StreamAction::Read => (HttpStage::Single(StreamPhase::Reading), HttpAction::Read),
        StreamAction::Deliver => (HttpStage::Single(StreamPhase::Delivering), HttpAction::Deliver),
        StreamAction::Finish => (HttpStage::TellingFinish, HttpAction::TellFinish),
        StreamAction::Fail => (HttpStage::Failed, HttpAction::Fail),
    }
}

/// What a step of a download in ranges means for the whole download. A download
/// that gives up or was cancelled is over without an error, as a complete one is.
pub open spec fn ranged_after(step: (Transfer, u64, TransferAction)) -> (
    HttpStage,
    u64,
    HttpAction,
) {
    let (t, retries, action) = step;
    match action {
        TransferAction::Receive => (HttpStage::Ranged(t), retries, HttpAction::Receive),
        TransferAction::Deliver => (HttpStage::Ranged(t), retries, HttpAction::DeliverRanged),
        TransferAction::Poll => (HttpStage::Ranged(t), retries, HttpAction::Poll),
        TransferAction::Retry { start, end } => (
            HttpStage::Ranged(t),
            retries,
            HttpAction::Retry { start, end },
        ),
        TransferAction::GiveUp => (
            HttpStage::TellingMaxRetries,
            retries,
            HttpAction::TellMaxRetries,
        ),
        TransferAction::Cancelled | TransferAction::Complete => (
            HttpStage::TellingFinish,
            retries,
            HttpAction::TellFinish,
        ),
        TransferAction::Abort => (HttpStage::Failed, retries, HttpAction::Fail),
    }
}

impl<H> HttpDownload<H> {
    /// Takes note of an event of the download and says what to do next.
    ///
    /// The first answer decides how the content is fetched. The observers are
    /// told the headers before it is, and that the download is over behind all
    /// else, unless an error ended it.
    pub fn advance(&mut self, stage: &mut HttpStage, event: HttpEvent) -> (action: HttpAction)
        requires
            old(stage).wf(),
            old(stage).accepts(
                old(self).is_cancel,
                old(self).retries,
                old(self).conf.max_retries,
                event,
            ),
        ensures
            (*final(stage), final(self).retries, action) == old(stage).after(
                old(self).is_cancel,
                old(self).retries,
                old(self).conf.max_retries,
                event,
            ),
            final(stage).wf(),
            *final(self) == (HttpDownload { retries: final(self).retries, ..*old(self) }),
    {
        match (*stage, event) {
            (HttpStage::Probing, HttpEvent::Answered { supports_resume, ranged }) => {
                if supports_resume {
                    *stage = HttpStage::TellingResume { ranged };
                    HttpAction::TellResume
                } else {
                    *stage = HttpStage::Building { ranged };
                    HttpAction::Build
                }
            },
            (HttpStage::TellingResume { ranged }, _) => {
                *stage = HttpStage::Building { ranged };
                HttpAction::Build
            },
            (HttpStage::Building { ranged }, HttpEvent::Built) => {
                *stage = HttpStage::TellingHeaders { ranged };
                HttpAction::TellHeaders
            },
            (HttpStage::TellingHeaders { ranged }, _) => {
                if ranged {
                    *stage = HttpStage::Starting;
                    HttpAction::Start
                } else {
                    *stage = HttpStage::Single(StreamPhase::Connecting);
                    HttpAction::Connect
                }
            },
            (HttpStage::Starting, HttpEvent::Started(transfer)) => self.advance_ranged(
                stage,
                transfer,
                TransferEvent::Ready,
            ),
            (HttpStage::Single(_), HttpEvent::Single(event)) => {
                match self.singlethread_download(event) {
                    StreamAction::Read => {
                        *stage = HttpStage::Single(StreamPhase::Reading);
                        HttpAction::Read
                    },
                    StreamAction::Deliver => {
                        *stage = HttpStage::Single(StreamPhase::Delivering);
                        HttpAction::Deliver
                    },
                    StreamAction::Finish => {
                        *stage = HttpStage::TellingFinish;
                        HttpAction::TellFinish
                    },
                    StreamAction::Fail => {
                        *stage = HttpStage::Failed;
                        HttpAction::Fail
                    },
                }
            },
            (HttpStage::Ranged(transfer), HttpEvent::Ranged(event)) => self.advance_ranged(
                stage,
                transfer,
                event,
            ),
            (HttpStage::TellingMaxRetries, _) => {
                *stage = HttpStage::TellingFinish;
                HttpAction::TellFinish
            },
            (HttpStage::TellingFinish, _) => {
                *stage = HttpStage::Done;
                HttpAction::Succeed
            },
            _ => {
                *stage = HttpStage::Failed;
                HttpAction::Fail
            },
        }
    }

    fn advance_ranged(
        &mut self,
        stage: &mut HttpStage,
        transfer: Transfer,
        event: TransferEvent,
    ) -> (action: HttpAction)
        requires
            transfer.wf(),
            transfer.ready_for(
                old(self).is_cancel,
                old(self).retries,
                old(self).conf.max_retries,
                event,
            ),
        ensures
            (*final(stage), final(self).retries, action) == ranged_after(
                transfer.after(
                    old(self).is_cancel,
                    old(self).retries,
                    old(self).conf.max_retries,
                    event,
                ),
            ),
            final(stage).wf(),
            *final(self) == (HttpDownload { retries: final(self).retries, ..*old(self) }),
    {
        let mut next = transfer;
        let step = self.transfer_step(&mut next, event);
        *stage = HttpStage::Ranged(next);
        match step {
            TransferAction::Receive => HttpAction::Receive,
            TransferAction::Deliver => HttpAction::DeliverRanged,
            TransferAction::Poll => HttpAction::Poll,
            TransferAction::Retry { start, end } => HttpAction::Retry { start, end },
            TransferAction::GiveUp => {
                *stage = HttpStage::TellingMaxRetries;
                HttpAction::TellMaxRetries
            },
            TransferAction::Cancelled | TransferAction::Complete => {
                *stage = HttpStage::TellingFinish;
                HttpAction::TellFinish
            },
            TransferAction::Abort => {
                *stage = HttpStage::Failed;
                HttpAction::Fail
            },
        }
    }
}

/// What the observers are told.
pub enum Notice {
    SupportsResume,
    Headers,
    /// A piece of the content.
    Content,
    /// A piece of a range.
    RangedContent,
    MaxRetries,
    Finish,
}

/// What an action tells the observers, if anything.
pub open spec fn told_by(action: HttpAction) -> Option<Notice> {
    match action {
        HttpAction::TellResume => Some(Notice::SupportsResume),
        HttpAction::TellHeaders => Some(Notice::Headers),
        HttpAction::Deliver => Some(Notice::Content),
        HttpAction::DeliverRanged => Some(Notice::RangedContent),
        HttpAction::TellMaxRetries => Some(Notice::MaxRetries),
        HttpAction::TellFinish => Some(Notice::Finish),
        _ => None,
    }
}

/// The stage, and the number of ranges that were fetched again, after the
/// events. Each event comes with whether the download was cancelled by then.
pub open spec fn stage_after_events(
    stage: HttpStage,
    retries: u64,
    max_retries: u64,
    events: Seq<(bool, HttpEvent)>,
) -> (HttpStage, u64)
    decreases events.len(),
{
    if events.len() == 0 {
        (stage, retries)
    } else {
        let (before, count) = stage_after_events(stage, retries, max_retries, events.drop_last());
        let (cancelled, event) = events.last();
        let (next, next_count, _) = before.after(cancelled, count, max_retries, event);
        (next, next_count)
    }
}

/// Whether the events can happen in this order.
pub open spec fn possible_course(
    stage: HttpStage,
    retries: u64,
    max_retries: u64,
    events: Seq<(bool, HttpEvent)>,
) -> bool
    decreases events.len(),
{
    events.len() > 0 ==> {
        let (before, count) = stage_after_events(stage, retries, max_retries, events.drop_last());
        let (cancelled, event) = events.last();
        &&& possible_course(stage, retries, max_retries, events.drop_last())
        &&& before.accepts(cancelled, count, max_retries, event)
    }
}

/// What the last of the events leads to.
pub open spec fn last_action(
    stage: HttpStage,
    retries: u64,
    max_retries: u64,
    events: Seq<(bool, HttpEvent)>,
) -> HttpAction
    recommends
        events.len() > 0,
{
    let (before, count) = stage_after_events(stage, retries, max_retries, events.drop_last());
    let (cancelled, event) = events.last();
    before.after(cancelled, count, max_retries, event).2
}

/// What the observers are told during the events, in order.
pub open spec fn notices(
    stage: HttpStage,
    retries: u64,
    max_retries: u64,
    events: Seq<(bool, HttpEvent)>,
) -> Seq<Notice>
    decreases events.len(),
{
    if events.len() == 0 {
        Seq::empty()
    } else {
        let before = notices(stage, retries, max_retries, events.drop_last());
        match told_by(last_action(stage, retries, max_retries, events)) {
            Some(notice) => before.push(notice),
            None => before,
        }
    }
}

/// The place of the headers among what the observers are told: the first, or the
/// second behind the notice that the server can resume.
pub open spec fn headers_place(told: Seq<Notice>) -> int {
    if told.len() > 0 && told[0] == Notice::SupportsResume {
        1
    } else {
        0
    }
}

/// Whether the headers have been told, or are just being told, once a download
/// is at a stage that is not an error.
pub open spec fn behind_headers(stage: HttpStage) -> bool {
    match stage {
        HttpStage::Probing
        | HttpStage::TellingResume { .. }
        | HttpStage::Building { .. }
        | HttpStage::Failed => false,
        _ => true,
    }
}

/// The observers of a download are told the headers once and before all else,
/// but for one notice at most that the server can resume; no content comes
/// without them, and no download ends without an error and without them.
pub proof fn lemma_headers_come_first(
    retries: u64,
    max_retries: u64,
    events: Seq<(bool, HttpEvent)>,
)
    requires
        possible_course(HttpStage::Probing, retries, max_retries, events),
    ensures
        ({
            let told = notices(HttpStage::Probing, retries, max_retries, events);
            let end = stage_after_events(HttpStage::Probing, retries, max_retries, events).0;
            &&& forall|i: int|
                0 <= i < told.len() ==> {
                    &&& (#[trigger] told[i] == Notice::Headers <==> i == headers_place(told))
                    &&& (told[i] == Notice::SupportsResume <==> i < headers_place(told))
                }
            &&& behind_headers(end) ==> told.len() > headers_place(told)
        }),
{
    lemma_notices_of_stage(retries, max_retries, events);
}

/// The observers of a download are told that it is over at most once and behind
/// all else, and exactly where no error ended it: it is just being told, or the
/// download is over without an error. The last action says by which of the two
/// ends a download is over.
pub proof fn lemma_finish_comes_last(retries: u64, max_retries: u64, events: Seq<(bool, HttpEvent)>)
    requires
        possible_course(HttpStage::Probing, retries, max_retries, events),
    ensures
        ({
            let told = notices(HttpStage::Probing, retries, max_retries, events);
            let end = stage_after_events(HttpStage::Probing, retries, max_retries, events).0;
            &&& forall|i: int|
                0 <= i < told.len() && #[trigger] told[i] == Notice::Finish ==> i == told.len() - 1
            &&& (told.len() > 0 && told.last() == Notice::Finish) <==> (end
                == HttpStage::TellingFinish || end == HttpStage::Done)
            &&& events.len() > 0 ==> {
                let action = last_action(HttpStage::Probing, retries, max_retries, events);
                &&& action == HttpAction::Succeed <==> end == HttpStage::Done
                &&& action == HttpAction::Fail <==> end == HttpStage::Failed
            }
        }),
{
    lemma_notices_of_stage(retries, max_retries, events);
}

/// Once a download is over, nothing more can happen to it.
pub proof fn lemma_over_is_final(
    stage: HttpStage,
    cancelled: bool,
    retries: u64,
    max_retries: u64,
    event: HttpEvent,
)
    requires
        stage == HttpStage::Done || stage == HttpStage::Failed,
    ensures
        !stage.accepts(cancelled, retries, max_retries, event),
{
}

/// A download that gives up tells its observers so once, and then only that it
/// is over.
pub proof fn lemma_nothing_but_finish_behind_max_retries(
    retries: u64,
    max_retries: u64,
    events: Seq<(bool, HttpEvent)>,
)
    requires
        possible_course(HttpStage::Probing, retries, max_retries, events),
    ensures
        ({
            let told = notices(HttpStage::Probing, retries, max_retries, events);
            forall|i: int|
                0 <= i < told.len() && #[trigger] told[i] == Notice::MaxRetries ==> i == told.len()
                    - 1 || (i == told.len() - 2 && told.last() == Notice::Finish)
        }),
{
    lemma_notices_of_stage(retries, max_retries, events);
}

/// What the observers were told by a stage, and nothing that cannot come before
/// it.
spec fn told_by_stage(stage: HttpStage, told: Seq<Notice>) -> bool {
    let place = headers_place(told);
    &&& forall|i: int|
        0 <= i < told.len() ==> {
            &&& (#[trigger] told[i] == Notice::Headers <==> i == place)
            &&& (told[i] == Notice::SupportsResume <==> i < place)
            &&& told[i] == Notice::Finish ==> i == told.len() - 1
            &&& told[i] == Notice::MaxRetries ==> i == told.len() - 1 || (i == told.len() - 2
                && told.last() == Notice::Finish)
        }
    &&& match stage {
        HttpStage::Probing => told.len() == 0,
        HttpStage::TellingResume { .. } => told.len() == 1 && place == 1,
        HttpStage::Building { .. } => told.len() == place,
        HttpStage::TellingHeaders { .. } => told.len() == place + 1,
        HttpStage::Starting
        | HttpStage::Single(_)
        | HttpStage::Ranged(_) => told.len() > place && told.last() != Notice::Finish
            && told.last() != Notice::MaxRetries,
        HttpStage::TellingMaxRetries => told.len() > place && told.last() == Notice::MaxRetries,
        HttpStage::TellingFinish | HttpStage::Done => told.len() > place && told.last()
            == Notice::Finish,
        HttpStage::Failed => told.len() > 0 ==> told.last() != Notice::Finish && told.last()
            != Notice::MaxRetries,
    }
}

proof fn lemma_notices_of_stage(retries: u64, max_retries: u64, events: Seq<(bool, HttpEvent)>)
    requires
        possible_course(HttpStage::Probing, retries, max_retries, events),
    ensures
        told_by_stage(
            stage_after_events(HttpStage::Probing, retries, max_retries, events).0,
            notices(HttpStage::Probing, retries, max_retries, events),
        ),
    decreases events.len(),
{
    if events.len() > 0 {
        lemma_notices_of_stage(retries, max_retries, events.drop_last());
    }
}

/// A download that was cancelled before it began gives its observers no content
/// and does not tell of too many failures. Where no error ends it, they are still
/// told the headers, and then that it is over, each once.
pub proof fn lemma_cancelled_download_gives_no_content(
    retries: u64,
    max_retries: u64,
    events: Seq<(bool, HttpEvent)>,
)
    requires
        possible_course(HttpStage::Probing, retries, max_retries, events),
        forall|i: int| 0 <= i < events.len() ==> (#[trigger] events[i]).0,
    ensures
        ({
            let told = notices(HttpStage::Probing, retries, max_retries, events);
            let end = stage_after_events(HttpStage::Probing, retries, max_retries, events).0;
            &&& forall|i: int|
                0 <= i < told.len() ==> {
                    &&& #[trigger] told[i] != Notice::Content
                    &&& told[i] != Notice::RangedContent
                    &&& told[i] != Notice::MaxRetries
                }
            &&& end == HttpStage::Done ==> told == seq![Notice::Headers, Notice::Finish] || told
                == seq![Notice::SupportsResume, Notice::Headers, Notice::Finish]
        }),
{
    lemma_notices_of_stage(retries, max_retries, events);
    lemma_cancelled_stages(retries, max_retries, events);
}

proof fn lemma_cancelled_stages(retries: u64, max_retries: u64, events: Seq<(bool, HttpEvent)>)
    requires
        possible_course(HttpStage::Probing, retries, max_retries, events),
        forall|i: int| 0 <= i < events.len() ==> (#[trigger] events[i]).0,
    ensures
        ({
            let told = notices(HttpStage::Probing, retries, max_retries, events);
            let place = headers_place(told);
            let end = stage_after_events(HttpStage::Probing, retries, max_retries, events).0;
            &&& !(end is Ranged) && !(end is TellingMaxRetries)
            &&& end is Starting || end is Single ==> told.len() == place + 1
            &&& end is TellingFinish || end is Done ==> told.len() == place + 2
            &&& forall|i: int|
                0 <= i < told.len() ==> {
                    &&& #[trigger] told[i] != Notice::Content
                    &&& told[i] != Notice::RangedContent
                    &&& told[i] != Notice::MaxRetries
                }
        }),
    decreases events.len(),
{
    if events.len() > 0 {
        let front = events.drop_last();
        assert(forall|i: int| 0 <= i < front.len() ==> front[i] == events[i]);
        assert(events[events.len() - 1] == events.last());
        lemma_notices_of_stage(retries, max_retries, front);
        lemma_cancelled_stages(retries, max_retries, front);
    }
}

/// Whether a piece of a range is awaited.
pub open spec fn awaits_piece(stage: HttpStage) -> bool {
    stage matches HttpStage::Ranged(t) && t.phase == TransferPhase::Receiving
}

/// A download gives its observers no content any more once it is cancelled, but
/// for the piece of a range that it is just waiting for. It is the first thing
/// that they are told from then on, if it arrives.
pub proof fn lemma_no_content_once_cancelled(
    stage: HttpStage,
    retries: u64,
    max_retries: u64,
    events: Seq<(bool, HttpEvent)>,
)
    requires
        possible_course(stage, retries, max_retries, events),
        forall|i: int| 0 <= i < events.len() ==> (#[trigger] events[i]).0,
    ensures
        ({
            let told = notices(stage, retries, max_retries, events);
            forall|i: int|
                0 <= i < told.len() ==> {
                    &&& #[trigger] told[i] != Notice::Content
                    &&& told[i] == Notice::RangedContent ==> i == 0 && awaits_piece(stage)
                }
        }),
{
    lemma_cancelled_awaits_nothing(stage, retries, max_retries, events);
}

proof fn lemma_cancelled_awaits_nothing(
    stage: HttpStage,
    retries: u64,
    max_retries: u64,
    events: Seq<(bool, HttpEvent)>,
)
    requires
        possible_course(stage, retries, max_retries, events),
        forall|i: int| 0 <= i < events.len() ==> (#[trigger] events[i]).0,
    ensures
        ({
            let told = notices(stage, retries, max_retries, events);
            let end = stage_after_events(stage, retries, max_retries, events).0;
            &&& awaits_piece(end) ==> awaits_piece(stage) && told.len() == 0
            &&& forall|i: int|
                0 <= i < told.len() ==> {
                    &&& #[trigger] told[i] != Notice::Content
                    &&& told[i] == Notice::RangedContent ==> i == 0 && awaits_piece(stage)
                }
        }),
    decreases events.len(),
{
    if events.len() > 0 {
        let front = events.drop_last();
        assert(forall|i: int| 0 <= i < front.len() ==> front[i] == events[i]);
        assert(events[events.len() - 1] == events.last());
        lemma_cancelled_awaits_nothing(stage, retries, max_retries, front);
    }
}

/// The pieces that arrived during the events, in order, where `pieces` are the
/// bytes that came with the events.
pub open spec fn arrived(events: Seq<(bool, HttpEvent)>, pieces: Seq<Seq<u8>>) -> Seq<Seq<u8>>
    decreases events.len(),
{
    if events.len() == 0 {
        Seq::empty()
    } else {
        let before = arrived(events.drop_last(), pieces.drop_last());
        match events.last().1 {
            HttpEvent::Single(StreamEvent::Chunk) => before.push(pieces.last()),
            HttpEvent::Ranged(TransferEvent::Received(_)) => before.push(pieces.last()),
            _ => before,
        }
    }
}

/// The pieces that the observers are given during the events, in order. Each is
/// the one that came with the event that has it given.
pub open spec fn given(
    stage: HttpStage,
    retries: u64,
    max_retries: u64,
    events: Seq<(bool, HttpEvent)>,
    pieces: Seq<Seq<u8>>,
) -> Seq<Seq<u8>>
    decreases events.len(),
{
    if events.len() == 0 {
        Seq::empty()
    } else {
        let before = given(stage, retries, max_retries, events.drop_last(), pieces.drop_last());
        match last_action(stage, retries, max_retries, events) {
            HttpAction::Deliver | HttpAction::DeliverRanged => before.push(pieces.last()),
            _ => before,
        }
    }
}

/// Whether a piece arrived in a download from start to end that was cancelled by
/// then.
pub open spec fn arrived_too_late(events: Seq<(bool, HttpEvent)>) -> bool {
    exists|i: int|
        0 <= i < events.len() && #[trigger] events[i] == (
            true,
            HttpEvent::Single(StreamEvent::Chunk),
        )
}

/// The observers are given the pieces that arrive, each once and in the order in
/// which they arrive, all of them but one that finds the download cancelled. A
/// download from start to end ends with that one.
pub proof fn lemma_all_that_arrives_is_given(
    retries: u64,
    max_retries: u64,
    events: Seq<(bool, HttpEvent)>,
    pieces: Seq<Seq<u8>>,
)
    requires
        possible_course(HttpStage::Probing, retries, max_retries, events),
        pieces.len() == events.len(),
    ensures
        ({
            let arrived = arrived(events, pieces);
            let given = given(HttpStage::Probing, retries, max_retries, events, pieces);
            let end = stage_after_events(HttpStage::Probing, retries, max_retries, events).0;
            if arrived_too_late(events) {
                &&& end == HttpStage::TellingFinish || end == HttpStage::Done
                &&& arrived.len() > 0
                &&& given == arrived.drop_last()
            } else {
                given == arrived
            }
        }),
    decreases events.len(),
{
    if events.len() > 0 {
        let front = events.drop_last();
        let before = arrived(front, pieces.drop_last());
        lemma_all_that_arrives_is_given(retries, max_retries, front, pieces.drop_last());
        assert(before.push(pieces.last()).drop_last() == before);
        assert(events[events.len() - 1] == events.last());
        if arrived_too_late(front) {
            let i = choose|i: int|
                0 <= i < front.len() && #[trigger] front[i] == (
                    true,
                    HttpEvent::Single(StreamEvent::Chunk),
                );
            assert(events[i] == front[i]);
        } else {
            assert(forall|i: int| 0 <= i < front.len() ==> front[i] == events[i]);
        }
    }
}

/// The download in ranges that was started, with what there was of it then.
pub open spec fn started(events: Seq<(bool, HttpEvent)>) -> Option<Transfer>
    decreases events.len(),
{
    if events.len() == 0 {
        None
    } else {
        match events.last().1 {
            HttpEvent::Started(t) => Some(t),
            _ => started(events.drop_last()),
        }
    }
}

/// The number of bytes of ranges that arrived during the events.
pub open spec fn arrived_in_ranges(events: Seq<(bool, HttpEvent)>) -> int
    decreases events.len(),
{
    if events.len() == 0 {
        0
    } else {
        arrived_in_ranges(events.drop_last()) + match events.last().1 {
            HttpEvent::Ranged(TransferEvent::Received(n)) => n as int,
            _ => 0,
        }
    }
}

/// The ranges that the actions have fetched again, in order.
pub open spec fn fetched_again(actions: Seq<HttpAction>) -> Seq<(u64, u64)>
    decreases actions.len(),
{
    if actions.len() == 0 {
        Seq::empty()
    } else {
        let before = fetched_again(actions.drop_last());
        match actions.last() {
            HttpAction::Retry { start, end } => before.push((start, end)),
            _ => before,
        }
    }
}

/// The ranges that the events report as failed, in order.
pub open spec fn reported_as_failed(events: Seq<(bool, HttpEvent)>) -> Seq<(u64, u64)>
    decreases events.len(),
{
    if events.len() == 0 {
        Seq::empty()
    } else {
        let before = reported_as_failed(events.drop_last());
        match events.last().1 {
            HttpEvent::Ranged(TransferEvent::Failure { start, end }) => before.push((start, end)),
            _ => before,
        }
    }
}

/// Whether an event is an error that ends the download.
pub open spec fn is_error(event: HttpEvent) -> bool {
    match event {
        HttpEvent::Unanswered | HttpEvent::NotBuilt | HttpEvent::NotStarted => true,
        HttpEvent::Single(event) => event is ConnectFailed || event is ReadFailed || event
            is DeliveryFailed,
        HttpEvent::Ranged(event) => event is DeliveryFailed,
        _ => false,
    }
}

/// Whether one call takes a download from one stage to the other.
spec fn advanced(
    stage: HttpStage,
    retries: u64,
    max_retries: u64,
    event: (bool, HttpEvent),
    next: HttpStage,
    next_retries: u64,
    action: HttpAction,
) -> bool {
    &&& stage.accepts(event.0, retries, max_retries, event.1)
    &&& (next, next_retries, action) == stage.after(event.0, retries, max_retries, event.1)
}

/// The stage that an action belongs to, but for what there is of a download in
/// ranges.
spec fn belongs_to(action: HttpAction, stage: HttpStage, ranged: bool) -> bool {
    match action {
        HttpAction::TellResume => stage == HttpStage::TellingResume { ranged },
        HttpAction::Build => stage == HttpStage::Building { ranged },
        HttpAction::TellHeaders => stage == HttpStage::TellingHeaders { ranged },
        HttpAction::Start => stage == HttpStage::Starting,
        HttpAction::Connect => stage == HttpStage::Single(StreamPhase::Connecting),
        HttpAction::Read => stage == HttpStage::Single(StreamPhase::Reading),
        HttpAction::Deliver => stage == HttpStage::Single(StreamPhase::Delivering),
        HttpAction::Receive => stage is Ranged && stage->Ranged_0.phase
            == TransferPhase::Receiving,
        HttpAction::DeliverRanged => stage is Ranged && stage->Ranged_0.phase
            == TransferPhase::Delivering,
        HttpAction::Poll => stage is Ranged && stage->Ranged_0.phase == TransferPhase::Polling,
        HttpAction::Retry { .. } => stage is Ranged && stage->Ranged_0.phase
            == TransferPhase::Deciding,
        HttpAction::TellMaxRetries => stage == HttpStage::TellingMaxRetries,
        HttpAction::TellFinish => stage == HttpStage::TellingFinish,
        HttpAction::Succeed => stage == HttpStage::Done,
        HttpAction::Fail => stage == HttpStage::Failed,
    }
}

/// Where a download stands after its first `n` calls.
proof fn lemma_course_up_to(
    stages: Seq<HttpStage>,
    rs: Seq<u64>,
    max_retries: u64,
    events: Seq<(bool, HttpEvent)>,
    actions: Seq<HttpAction>,
    n: int,
)
    requires
        stages.len() == events.len() + 1,
        rs.len() == events.len() + 1,
        actions.len() == events.len(),
        stages[0] == HttpStage::Probing,
        forall|i: int|
            0 <= i < events.len() ==> advanced(
                stages[i],
                rs[i],
                max_retries,
                events[i],
                stages[i + 1],
                rs[i + 1],
                #[trigger] actions[i],
            ),
        0 <= n <= events.len(),
    ensures
        stages[n].wf(),
        n > 0 ==> belongs_to(
            actions[n - 1],
            stages[n],
            events[0].1 is Answered && events[0].1->ranged,
        ),
        n > 0 ==> events[0].1 is Answered || events[0].1 is Unanswered,
        n > 1 ==> events[0].1 is Answered,
        forall|i: int| 0 < i < n ==> !((#[trigger] events[i]).1 is Answered),
        stages[n] matches HttpStage::Ranged(t) ==> {
            &&& started(events.take(n)) is Some
            &&& {
                let begun = started(events.take(n))->Some_0;
                &&& t.ct_len == begun.ct_len
                &&& t.bytes_on_disk == begun.bytes_on_disk
                &&& t.count == begun.count + arrived_in_ranges(events.take(n))
            }
        },
        stages[n] is Probing || stages[n] is TellingResume || stages[n] is Building || stages[n]
            is TellingHeaders || stages[n] is Starting ==> arrived_in_ranges(events.take(n)) == 0,
        rs[n] == rs[0] + fetched_again(actions.take(n)).len(),
        fetched_again(actions.take(n)) == reported_as_failed(events.take(n)) || (
        reported_as_failed(events.take(n)).len() > 0 && fetched_again(actions.take(n))
            == reported_as_failed(events.take(n)).drop_last() && (stages[n] is TellingMaxRetries
            || stages[n] is TellingFinish || stages[n] is Done)),
    decreases n,
{
    if n > 0 {
        lemma_course_up_to(stages, rs, max_retries, events, actions, n - 1);
        assert(advanced(
            stages[n - 1],
            rs[n - 1],
            max_retries,
            events[n - 1],
            stages[n],
            rs[n],
            actions[n - 1],
        ));
        assert(events.take(n).drop_last() == events.take(n - 1));
        assert(actions.take(n).drop_last() == actions.take(n - 1));
        assert(events.take(n).last() == events[n - 1]);
        assert(actions.take(n).last() == actions[n - 1]);
        let failed = reported_as_failed(events.take(n - 1));
        if let HttpEvent::Ranged(TransferEvent::Failure { start, end }) = events[n - 1].1 {
            assert(failed.push((start, end)).drop_last() == failed);
        }
    } else {
        assert(events.take(0).len() == 0);
        assert(actions.take(0).len() == 0);
        assert(fetched_again(actions.take(0)) == reported_as_failed(events.take(0)));
    }
}

/// What is done for a download follows from what happened up to there. The first
/// answer decides whether the observers hear that the server can resume, and how the
/// content is fetched once they were told the headers. An error ends the download
/// with it. A download from start to end gives the observers each piece that finds
/// it not cancelled, and is over at the end of the answer. One in ranges gives them
/// each piece, is over where it is cancelled or as many bytes arrived as there are,
/// and fetches a failed range again, from the first to the last offset that the
/// failure names, unless more than `max_retries` were before. The law is about the
/// calls of [`HttpDownload::advance`] that follow one another in a download, and
/// about what they return.
pub proof fn lemma_what_is_done_over_http<H>(
    stages: Seq<HttpStage>,
    rs: Seq<u64>,
    max_retries: u64,
    events: Seq<(bool, HttpEvent)>,
    actions: Seq<HttpAction>,
)
    requires
        events.len() > 0,
        stages.len() == events.len() + 1,
        rs.len() == events.len() + 1,
        actions.len() == events.len(),
        stages[0] == HttpStage::Probing,
        forall|i: int|
            #![trigger actions[i]]
            0 <= i < events.len() ==> exists|d: &mut HttpDownload<H>, s: &mut HttpStage|
                {
                    &&& d.is_cancel == events[i].0
                    &&& d.conf.max_retries == max_retries
                    &&& d.retries == rs[i]
                    &&& final(d).retries == rs[i + 1]
                    &&& *s == stages[i]
                    &&& *final(s) == stages[i + 1]
                    &&& s.accepts(d.is_cancel, d.retries, max_retries, events[i].1)
                    &&& #[trigger] call_ensures(
                        HttpDownload::<H>::advance,
                        (d, s, events[i].1),
                        actions[i],
                    )
                },
    ensures
        ({
            let n = events.len();
            let (cancelled, event) = events.last();
            let action = actions.last();
            match event {
                HttpEvent::Answered { supports_resume, .. } => action == if supports_resume {
                    HttpAction::TellResume
                } else {
                    HttpAction::Build
                },
                HttpEvent::Unanswered | HttpEvent::NotBuilt | HttpEvent::NotStarted => action
                    == HttpAction::Fail,
                HttpEvent::Built => action == HttpAction::TellHeaders,
                HttpEvent::Told => n > 1 && events[0].1 is Answered && match actions[n - 2] {
                    HttpAction::TellResume => action == HttpAction::Build,
                    HttpAction::TellHeaders => action == if events[0].1->ranged {
                        HttpAction::Start
                    } else {
                        HttpAction::Connect
                    },
                    HttpAction::TellMaxRetries => action == HttpAction::TellFinish,
                    HttpAction::TellFinish => action == HttpAction::Succeed,
                    _ => false,
                },
                HttpEvent::Started(t) => action == if cancelled || t.count == t.ct_len
                    + t.bytes_on_disk {
                    HttpAction::TellFinish
                } else {
                    HttpAction::Receive
                },
                HttpEvent::Single(StreamEvent::Connected)
                | HttpEvent::Single(StreamEvent::Delivered) => action == HttpAction::Read,
                HttpEvent::Single(StreamEvent::Chunk) => action == if cancelled {
                    HttpAction::TellFinish
                } else {
                    HttpAction::Deliver
                },
                HttpEvent::Single(StreamEvent::End) => action == HttpAction::TellFinish,
                HttpEvent::Single(_) => action == HttpAction::Fail,
                HttpEvent::Ranged(TransferEvent::Received(_)) => action
                    == HttpAction::DeliverRanged,
                HttpEvent::Ranged(TransferEvent::NothingReceived)
                | HttpEvent::Ranged(TransferEvent::Delivered) => action == HttpAction::Poll,
                HttpEvent::Ranged(TransferEvent::DeliveryFailed) => action == HttpAction::Fail,
                HttpEvent::Ranged(TransferEvent::Ready)
                | HttpEvent::Ranged(TransferEvent::NoFailure) => started(events) is Some && {
                    let begun = started(events)->Some_0;
                    action == if cancelled || begun.count + arrived_in_ranges(events)
                        == begun.ct_len + begun.bytes_on_disk {
                        HttpAction::TellFinish
                    } else {
                        HttpAction::Receive
                    }
                },
                HttpEvent::Ranged(TransferEvent::Failure { start, end }) => action == if rs[0]
                    + fetched_again(actions.drop_last()).len() > max_retries {
                    HttpAction::TellMaxRetries
                } else {
                    HttpAction::Retry { start, end }
                },
            }
        }),
{
    assert forall|i: int| 0 <= i < events.len() implies advanced(
        stages[i],
        rs[i],
        max_retries,
        events[i],
        stages[i + 1],
        rs[i + 1],
        #[trigger] actions[i],
    ) by {
        let (d, s) = choose|d: &mut HttpDownload<H>, s: &mut HttpStage|
            {
                &&& d.is_cancel == events[i].0
                &&& d.conf.max_retries == max_retries
                &&& d.retries == rs[i]
                &&& final(d).retries == rs[i + 1]
                &&& *s == stages[i]
                &&& *final(s) == stages[i + 1]
                &&& s.accepts(d.is_cancel, d.retries, max_retries, events[i].1)
                &&& #[trigger] call_ensures(
                    HttpDownload::<H>::advance,
                    (d, s, events[i].1),
                    actions[i],
                )
            };
        assert(call_ensures(HttpDownload::<H>::advance, (d, s, events[i].1), actions[i]));
    }
    let n = events.len() as int;
    lemma_course_up_to(stages, rs, max_retries, events, actions, n - 1);
    lemma_course_up_to(stages, rs, max_retries, events, actions, n);
    assert(advanced(
        stages[n - 1],
        rs[n - 1],
        max_retries,
        events[n - 1],
        stages[n],
        rs[n],
        actions[n - 1],
    ));
    assert(events.take(n) == events);
    assert(events.take(n - 1) == events.drop_last());
    assert(actions.take(n - 1) == actions.drop_last());
}

/// A download ends with an error exactly where one came, at once and whatever it
/// was, and then nothing more is done; so one that succeeds had none.
pub proof fn lemma_errors_end_a_download<H>(
    stages: Seq<HttpStage>,
    rs: Seq<u64>,
    max_retries: u64,
    events: Seq<(bool, HttpEvent)>,
    actions: Seq<HttpAction>,
    i: int,
)
    requires
        stages.len() == events.len() + 1,
        rs.len() == events.len() + 1,
        actions.len() == events.len(),
        stages[0] == HttpStage::Probing,
        forall|i: int|
            #![trigger actions[i]]
            0 <= i < events.len() ==> exists|d: &mut HttpDownload<H>, s: &mut HttpStage|
                {
                    &&& d.is_cancel == events[i].0
                    &&& d.conf.max_retries == max_retries
                    &&& d.retries == rs[i]
                    &&& final(d).retries == rs[i + 1]
                    &&& *s == stages[i]
                    &&& *final(s) == stages[i + 1]
                    &&& s.accepts(d.is_cancel, d.retries, max_retries, events[i].1)
                    &&& #[trigger] call_ensures(
                        HttpDownload::<H>::advance,
                        (d, s, events[i].1),
                        actions[i],
                    )
                },
        0 <= i < events.len(),
    ensures
        actions[i] == HttpAction::Fail <==> is_error(events[i].1),
        is_error(events[i].1) ==> i == events.len() - 1,
        actions[i] == HttpAction::Succeed ==> i == events.len() - 1 && i > 0 && actions[i - 1]
            == HttpAction::TellFinish && events[i].1 == HttpEvent::Told,
{
    assert forall|i: int| 0 <= i < events.len() implies advanced(
        stages[i],
        rs[i],
        max_retries,
        events[i],
        stages[i + 1],
        rs[i + 1],
        #[trigger] actions[i],
    ) by {
        let (d, s) = choose|d: &mut HttpDownload<H>, s: &mut HttpStage|
            {
                &&& d.is_cancel == events[i].0
                &&& d.conf.max_retries == max_retries
                &&& d.retries == rs[i]
                &&& final(d).retries == rs[i + 1]
                &&& *s == stages[i]
                &&& *final(s) == stages[i + 1]
                &&& s.accepts(d.is_cancel, d.retries, max_retries, events[i].1)
                &&& #[trigger] call_ensures(
                    HttpDownload::<H>::advance,
                    (d, s, events[i].1),
                    actions[i],
                )
            };
        assert(call_ensures(HttpDownload::<H>::advance, (d, s, events[i].1), actions[i]));
    }
    lemma_course_up_to(stages, rs, max_retries, events, actions, i);
    lemma_course_up_to(stages, rs, max_retries, events, actions, i + 1);
    assert(advanced(
        stages[i],
        rs[i],
        max_retries,
        events[i],
        stages[i + 1],
        rs[i + 1],
        actions[i],
    ));
    if i < events.len() - 1 {
        assert(advanced(
            stages[i + 1],
            rs[i + 1],
            max_retries,
            events[i + 1],
            stages[i + 2],
            rs[i + 2],
            actions[i + 1],
        ));
    }
}

/// The ranges that a download fetches again are those that are reported as failed,
/// from the same first to the same last offset and in the same order, but for the
/// last one where the download gives up on it.
pub proof fn lemma_what_failed_is_fetched_again<H>(
    stages: Seq<HttpStage>,
    rs: Seq<u64>,
    max_retries: u64,
    events: Seq<(bool, HttpEvent)>,
    actions: Seq<HttpAction>,
)
    requires
        stages.len() == events.len() + 1,
        rs.len() == events.len() + 1,
        actions.len() == events.len(),
        stages[0] == HttpStage::Probing,
        forall|i: int|
            #![trigger actions[i]]
            0 <= i < events.len() ==> exists|d: &mut HttpDownload<H>, s: &mut HttpStage|
                {
                    &&& d.is_cancel == events[i].0
                    &&& d.conf.max_retries == max_retries
                    &&& d.retries == rs[i]
                    &&& final(d).retries == rs[i + 1]
                    &&& *s == stages[i]
                    &&& *final(s) == stages[i + 1]
                    &&& s.accepts(d.is_cancel, d.retries, max_retries, events[i].1)
                    &&& #[trigger] call_ensures(
                        HttpDownload::<H>::advance,
                        (d, s, events[i].1),
                        actions[i],
                    )
                },
    ensures
        fetched_again(actions) == reported_as_failed(events) || (reported_as_failed(events).len()
            > 0 && fetched_again(actions) == reported_as_failed(events).drop_last() && (
        actions.last() == HttpAction::TellMaxRetries || actions.last() == HttpAction::TellFinish
            || actions.last() == HttpAction::Succeed)),
        rs.last() == rs[0] + fetched_again(actions).len(),
{
    assert forall|i: int| 0 <= i < events.len() implies advanced(
        stages[i],
        rs[i],
        max_retries,
        events[i],
        stages[i + 1],
        rs[i + 1],
        #[trigger] actions[i],
    ) by {
        let (d, s) = choose|d: &mut HttpDownload<H>, s: &mut HttpStage|
            {
                &&& d.is_cancel == events[i].0
                &&& d.conf.max_retries == max_retries
                &&& d.retries == rs[i]
                &&& final(d).retries == rs[i + 1]
                &&& *s == stages[i]
                &&& *final(s) == stages[i + 1]
                &&& s.accepts(d.is_cancel, d.retries, max_retries, events[i].1)
                &&& #[trigger] call_ensures(
                    HttpDownload::<H>::advance,
                    (d, s, events[i].1),
                    actions[i],
                )
            };
        assert(call_ensures(HttpDownload::<H>::advance, (d, s, events[i].1), actions[i]));
    }
    let n = events.len() as int;
    lemma_course_up_to(stages, rs, max_retries, events, actions, n);
    assert(events.take(n) == events);
    assert(actions.take(n) == actions);
}

/// Whatever can come of what is done for a download can be taken note of, as far as
/// its bytes and the ranges fetched again can be counted.
pub proof fn lemma_course_takes_every_event<H>(
    stages: Seq<HttpStage>,
    rs: Seq<u64>,
    max_retries: u64,
    events: Seq<(bool, HttpEvent)>,
    actions: Seq<HttpAction>,
    event: HttpEvent,
)
    requires
        stages.len() == events.len() + 1,
        rs.len() == events.len() + 1,
        actions.len() == events.len(),
        stages[0] == HttpStage::Probing,
        forall|i: int|
            #![trigger actions[i]]
            0 <= i < events.len() ==> exists|d: &mut HttpDownload<H>, s: &mut HttpStage|
                {
                    &&& d.is_cancel == events[i].0
                    &&& d.conf.max_retries == max_retries
                    &&& d.retries == rs[i]
                    &&& final(d).retries == rs[i + 1]
                    &&& *s == stages[i]
                    &&& *final(s) == stages[i + 1]
                    &&& s.accepts(d.is_cancel, d.retries, max_retries, events[i].1)
                    &&& #[trigger] call_ensures(
                        HttpDownload::<H>::advance,
                        (d, s, events[i].1),
                        actions[i],
                    )
                },
        if events.len() == 0 {
            event is Answered || event is Unanswered
        } else {
            match actions.last() {
                HttpAction::TellResume
                | HttpAction::TellHeaders
                | HttpAction::TellMaxRetries
                | HttpAction::TellFinish => event == HttpEvent::Told,
                HttpAction::Build => event is Built || event is NotBuilt,
                HttpAction::Start => event is NotStarted || (event matches HttpEvent::Started(t)
                    && t.bytes_on_disk <= t.count && t.phase == TransferPhase::Deciding && t.ct_len
                    + t.bytes_on_disk <= u64::MAX),
                HttpAction::Connect => event == HttpEvent::Single(StreamEvent::Connected) || event
                    == HttpEvent::Single(StreamEvent::ConnectFailed),
                HttpAction::Read => event == HttpEvent::Single(StreamEvent::Chunk) || event
                    == HttpEvent::Single(StreamEvent::End) || event == HttpEvent::Single(
                    StreamEvent::ReadFailed,
                ),
                HttpAction::Deliver => event == HttpEvent::Single(StreamEvent::Delivered) || event
                    == HttpEvent::Single(StreamEvent::DeliveryFailed),
                HttpAction::Receive => event == HttpEvent::Ranged(TransferEvent::NothingReceived)
                    || (event matches HttpEvent::Ranged(TransferEvent::Received(n))
                    && started(events)->Some_0.count + arrived_in_ranges(events) + n <= u64::MAX),
                HttpAction::DeliverRanged => event == HttpEvent::Ranged(TransferEvent::Delivered)
                    || event == HttpEvent::Ranged(TransferEvent::DeliveryFailed),
                HttpAction::Poll => (event == HttpEvent::Ranged(TransferEvent::NoFailure)
                    && started(events)->Some_0.ct_len + started(events)->Some_0.bytes_on_disk
                    <= u64::MAX) || (event is Ranged && event->Ranged_0 is Failure && (rs.last()
                    < u64::MAX || max_retries < u64::MAX)),
                HttpAction::Retry { .. } => event == HttpEvent::Ranged(TransferEvent::Ready)
                    && started(events)->Some_0.ct_len + started(events)->Some_0.bytes_on_disk
                    <= u64::MAX,
                HttpAction::Succeed | HttpAction::Fail => false,
            }
        },
    ensures
        forall|d: &mut HttpDownload<H>, s: &mut HttpStage|
            *s == stages.last() && d.retries == rs.last() && d.conf.max_retries == max_retries
                ==> #[trigger] call_requires(HttpDownload::<H>::advance, (d, s, event)),
{
    assert forall|i: int| 0 <= i < events.len() implies advanced(
        stages[i],
        rs[i],
        max_retries,
        events[i],
        stages[i + 1],
        rs[i + 1],
        #[trigger] actions[i],
    ) by {
        let (d, s) = choose|d: &mut HttpDownload<H>, s: &mut HttpStage|
            {
                &&& d.is_cancel == events[i].0
                &&& d.conf.max_retries == max_retries
                &&& d.retries == rs[i]
                &&& final(d).retries == rs[i + 1]
                &&& *s == stages[i]
                &&& *final(s) == stages[i + 1]
                &&& s.accepts(d.is_cancel, d.retries, max_retries, events[i].1)
                &&& #[trigger] call_ensures(
                    HttpDownload::<H>::advance,
                    (d, s, events[i].1),
                    actions[i],
                )
            };
        assert(call_ensures(HttpDownload::<H>::advance, (d, s, events[i].1), actions[i]));
    }
    let n = events.len() as int;
    lemma_course_up_to(stages, rs, max_retries, events, actions, n);
    assert(events.take(n) == events);
}

/// A step of a download leaves the download as it is, but for the number of ranges
/// that were fetched again; a cancelled one stays cancelled.
pub proof fn lemma_advance_keeps_the_download<H>(event: HttpEvent, action: HttpAction)
    ensures
        forall|d: &mut HttpDownload<H>, s: &mut HttpStage|
            #[trigger] call_ensures(HttpDownload::<H>::advance, (d, s, event), action) ==> {
                &&& final(d).url == d.url
                &&& final(d).hooks == d.hooks
                &&& final(d).conf == d.conf
                &&& final(d).is_cancel == d.is_cancel
            },
{
}

} // verus!
