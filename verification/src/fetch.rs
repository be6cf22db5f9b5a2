//! The fetching of one byte range, and the handing out of the ranges.
use reqwest::header::{HeaderMap, HeaderValue};
use vstd::prelude::*;

use crate::chunks::{chunk_bounds, contiguous, lemma_chunks_are_contiguous};
use crate::headers::{header_entries, headers_clone, lemma_printable_is_value, set_header};
use crate::headers::{with_value, HeaderError, SAFE_HEADER_NAMES};
use crate::numbers::{decimal, decimal_text, lemma_decimal_digits, lemma_decimal_is_read_back};
use crate::numbers::{number_of, NumberError};

verus! {

/// Where the fetching of a range stands.
#[derive(Clone, Copy, Debug, PartialEq, Eq, Structural)]
pub enum ChunkPhase {
    /// The request is being made.
    Connecting,
    /// The next piece of the answer is being read.
    Reading,
    /// A piece of this many bytes is being handed on.
    Sending(u64),
    /// Nothing more is done for this range.
    Ended,
}

/// What happened to the fetching of a range.
#[derive(Clone, Copy, Debug, PartialEq, Eq, Structural)]
pub enum ChunkEvent {
    /// The server answered.
    Connected,
    /// The request could not be made.
    ConnectFailed,
    /// A piece of this many bytes was read.
    Piece(u64),
    /// The answer has ended.
    StreamEnd,
    /// The answer could not be read on.
    ReadFailed,
    /// The last piece was handed on.
    Sent,
    /// The last piece could not be handed on.
    SendFailed,
}

/// What is to be done next for a range.
#[derive(Clone, Copy, Debug, PartialEq, Eq, Structural)]
pub enum ChunkAction {
    /// Read the next piece.
    Read,
    /// Hand the piece just read on, as `count` bytes that belong at `offset`.
    Send { count: u64, offset: u64 },
    /// Report that the offsets from `start` to `end` are still to be fetched.
    Report { start: u64, end: u64 },
    /// Nothing: the range is done.
    Finish,
}

/// The fetching of the offsets from `first` to `end`.
#[derive(Clone, Copy, Debug, PartialEq, Eq, Structural)]
pub struct ChunkDownload {
    /// The first offset of the range.
    pub first: u64,
    /// The last offset of the range.
    pub end: u64,
    /// The offset of the first byte that has not been handed on.
    pub start_offset: u64,
    /// The number of bytes read.
    pub cnt: u64,
    pub phase: ChunkPhase,
}

/// The text by which a range is asked for.
pub open spec fn range_text(first: nat, end: nat) -> Seq<char> {
    "bytes="@ + decimal(first) + "-"@ + decimal(end)
}

/// The headers of the request for a range: those of `entries`, and in place of
/// what they say of the range, the accepted types and the connection, what is
/// asked for a range.
pub open spec fn range_entries(
    entries: Map<Seq<char>, Seq<Seq<u8>>>,
    first: nat,
    end: nat,
) -> Map<Seq<char>, Seq<Seq<u8>>> {
    with_value(
        with_value(
            with_value(entries, "range"@, vstd::utf8::encode_utf8(range_text(first, end))),
            "accept"@,
            vstd::utf8::encode_utf8("*/*"@),
        ),
        "connection"@,
        vstd::utf8::encode_utf8("keep-alive"@),
    )
}

impl ChunkDownload {
    /// The number of offsets in the range.
    pub open spec fn size(self) -> int {
        self.end - self.first + 1
    }

    /// All that was read but the piece that is being handed on has been handed
    /// on, and nothing is read of a range that ends before it starts.
    pub open spec fn wf(self) -> bool {
        &&& self.first <= self.start_offset <= self.first + self.cnt <= u64::MAX
        &&& match self.phase {
            ChunkPhase::Connecting => self.cnt == 0,
            ChunkPhase::Reading => self.first <= self.end && self.start_offset == self.first
                + self.cnt,
            ChunkPhase::Sending(count) => self.first <= self.end && count > 0 && self.start_offset
                + count == self.first + self.cnt,
            ChunkPhase::Ended => true,
        }
    }

    /// The events that can happen now. An answer can only come for a range that
    /// does not end before it starts, a piece must not reach beyond the offsets
    /// that can be counted, and once a piece is handed on the number of offsets
    /// in the range must be one that can be counted.
    pub open spec fn accepts(self, event: ChunkEvent) -> bool {
        match (self.phase, event) {
            (ChunkPhase::Connecting, ChunkEvent::Connected) => self.first <= self.end,
            (ChunkPhase::Connecting, ChunkEvent::ConnectFailed) => true,
            (ChunkPhase::Reading, ChunkEvent::Piece(count)) => self.first + self.cnt + count
                <= u64::MAX,
            (ChunkPhase::Reading, ChunkEvent::StreamEnd) => true,
            (ChunkPhase::Reading, ChunkEvent::ReadFailed) => true,
            (ChunkPhase::Sending(_), ChunkEvent::Sent) => self.size() <= u64::MAX,
            (ChunkPhase::Sending(_), ChunkEvent::SendFailed) => true,
            _ => false,
        }
    }

    /// Starts the fetching of the offsets from `offsets.0` to `offsets.1`.
    pub fn new(offsets: (u64, u64)) -> (r: ChunkDownload)
        ensures
            r == fresh_chunk(offsets),
            r.wf(),
    {
        ChunkDownload {
            first: offsets.0,
            end: offsets.1,
            start_offset: offsets.0,
            cnt: 0,
            phase: ChunkPhase::Connecting,
        }
    }

    /// The value of the `Range` header by which the range is asked for.
    pub fn byte_range(&self) -> (r: String)
        ensures
            r@ == range_text(self.first as nat, self.end as nat),
    {
        let mut text = String::new();
        text.append("bytes=");
        text.append(decimal_text(self.first).as_str());
        text.append("-");
        text.append(decimal_text(self.end).as_str());
        assert(text@ == range_text(self.first as nat, self.end as nat));
        text
    }

    /// The headers of the request for the range, made from those of the
    /// download. Only a map of very many names cannot hold them.
    pub fn request_headers(&self, headers: &HeaderMap<HeaderValue>) -> (r: Result<
        HeaderMap<HeaderValue>,
        HeaderError,
    >)
        ensures
            r matches Ok(made) ==> header_entries(made) == range_entries(
                header_entries(*headers),
                self.first as nat,
                self.end as nat,
            ),
            r matches Err(e) ==> e == HeaderError::TooManyHeaders && header_entries(
                *headers,
            ).dom().len() + 2 >= SAFE_HEADER_NAMES,
    {
        let mut made = headers_clone(headers);
        let range = self.byte_range();
        proof {
            reveal_strlit("range");
            reveal_strlit("accept");
            reveal_strlit("connection");
            reveal_strlit("*/*");
            reveal_strlit("keep-alive");
            lemma_range_is_printable(self.first as nat, self.end as nat);
            lemma_printable_is_value(range@);
            lemma_printable_is_value("*/*"@);
            lemma_printable_is_value("keep-alive"@);
        }
        if let Err(e) = set_header(&mut made, "range", range.as_str()) {
            return Err(e);
        }
        if let Err(e) = set_header(&mut made, "accept", "*/*") {
            return Err(e);
        }
        if let Err(e) = set_header(&mut made, "connection", "keep-alive") {
            return Err(e);
        }
        Ok(made)
    }

    /// What an event leads to.
    pub open spec fn after(self, event: ChunkEvent) -> (ChunkDownload, ChunkAction) {
        let ended = ChunkDownload { phase: ChunkPhase::Ended, ..self };
        let report = ChunkAction::Report { start: self.start_offset, end: self.end };
        match (self.phase, event) {
            (_, ChunkEvent::Connected) => (
                ChunkDownload { phase: ChunkPhase::Reading, ..self },
                ChunkAction::Read,
            ),
            (_, ChunkEvent::Piece(count)) => if count == 0 {
                (ended, ChunkAction::Finish)
            } else {
                (
                    ChunkDownload {
                        cnt: (self.cnt + count) as u64,
                        phase: ChunkPhase::Sending(count),
                        ..self
                    },
                    ChunkAction::Send { count, offset: self.start_offset },
                )
            },
            (ChunkPhase::Sending(count), ChunkEvent::Sent) => {
                let start_offset = (self.start_offset + count) as u64;
                if self.cnt == self.size() {
                    (ChunkDownload { start_offset, ..ended }, ChunkAction::Finish)
                } else {
                    (
                        ChunkDownload { start_offset, phase: ChunkPhase::Reading, ..self },
                        ChunkAction::Read,
                    )
                }
            },
            (_, ChunkEvent::StreamEnd) => (ended, ChunkAction::Finish),
            _ => (ended, report),
        }
    }

    /// Takes note of an event and says what to do next. A range ends as soon as
    /// as many bytes were read as it holds; a range whose fetching fails is
    /// reported from the first byte on that was not handed on.
    pub fn step(&mut self, event: ChunkEvent) -> (action: ChunkAction)
        requires
            old(self).wf(),
            old(self).accepts(event),
        ensures
            (*final(self), action) == old(self).after(event),
            final(self).wf(),
    {
        match event {
            ChunkEvent::Connected => {
                self.phase = ChunkPhase::Reading;
                ChunkAction::Read
            },
            ChunkEvent::Piece(count) => {
                if count == 0 {
                    self.phase = ChunkPhase::Ended;
                    ChunkAction::Finish
                } else {
                    self.cnt = self.cnt + count;
                    self.phase = ChunkPhase::Sending(count);
                    ChunkAction::Send { count, offset: self.start_offset }
                }
            },
            ChunkEvent::Sent => {
                if let ChunkPhase::Sending(count) = self.phase {
                    self.start_offset = self.start_offset + count;
                }
                let chunk_sz: u64 = self.end - self.first;
                if self.cnt == chunk_sz + 1 {
                    self.phase = ChunkPhase::Ended;
                    ChunkAction::Finish
                } else {
                    self.phase = ChunkPhase::Reading;
                    ChunkAction::Read
                }
            },
            ChunkEvent::StreamEnd => {
                self.phase = ChunkPhase::Ended;
                ChunkAction::Finish
            },
            ChunkEvent::ConnectFailed | ChunkEvent::ReadFailed | ChunkEvent::SendFailed => {
                self.phase = ChunkPhase::Ended;
                ChunkAction::Report { start: self.start_offset, end: self.end }
            },
        }
    }
}

/// Whether the events can happen in this order.
pub open spec fn possible(c: ChunkDownload, events: Seq<ChunkEvent>) -> bool
    decreases events.len(),
{
    events.len() > 0 ==> c.accepts(events[0]) && possible(c.after(events[0]).0, events.skip(1))
}

/// Where the fetching stands after the events.
pub open spec fn after_all(c: ChunkDownload, events: Seq<ChunkEvent>) -> ChunkDownload
    decreases events.len(),
{
    if events.len() == 0 {
        c
    } else {
        after_all(c.after(events[0]).0, events.skip(1))
    }
}

/// The pieces that were handed on during the events, each with its offset and
/// its number of bytes, in the order in which they were handed on.
pub open spec fn delivered(c: ChunkDownload, events: Seq<ChunkEvent>) -> Seq<(int, int)>
    decreases events.len(),
{
    if events.len() == 0 {
        Seq::empty()
    } else {
        let rest = delivered(c.after(events[0]).0, events.skip(1));
        match (c.phase, events[0]) {
            (ChunkPhase::Sending(count), ChunkEvent::Sent) => seq![
                (c.start_offset as int, count as int),
            ] + rest,
            _ => rest,
        }
    }
}

/// Whether the pieces follow one another without gap or overlap, from the
/// offset `from` up to, and without, the offset `to`.
pub open spec fn tiles(pieces: Seq<(int, int)>, from: int, to: int) -> bool
    decreases pieces.len(),
{
    if pieces.len() == 0 {
        from == to
    } else {
        &&& pieces[0].0 == from
        &&& pieces[0].1 > 0
        &&& tiles(pieces.skip(1), from + pieces[0].1, to)
    }
}

/// However the fetching goes, what was handed on is the range from its start
/// up to `start_offset`, each byte once and in order.
pub proof fn lemma_delivered_tile_the_range(c: ChunkDownload, events: Seq<ChunkEvent>)
    requires
        c.wf(),
        possible(c, events),
    ensures
        tiles(
            delivered(c, events),
            c.start_offset as int,
            after_all(c, events).start_offset as int,
        ),
        after_all(c, events).wf(),
        after_all(c, events).first == c.first,
        after_all(c, events).end == c.end,
    decreases events.len(),
{
    if events.len() > 0 {
        let next = c.after(events[0]).0;
        lemma_delivered_tile_the_range(next, events.skip(1));
        let rest = delivered(next, events.skip(1));
        if let (ChunkPhase::Sending(count), ChunkEvent::Sent) = (c.phase, events[0]) {
            let all = seq![(c.start_offset as int, count as int)] + rest;
            assert(all.skip(1) == rest);
        }
    }
}

/// A range whose fetching fails is reported from the first byte on that was not
/// handed on, up to its end: what was delivered and what is reported are the
/// range, without gap or overlap.
pub proof fn lemma_failure_reports_the_rest(offsets: (u64, u64), events: Seq<ChunkEvent>)
    requires
        events.len() > 0,
        possible(fresh_chunk(offsets), events),
        after_all(fresh_chunk(offsets), events.drop_last()).after(events.last()).1 is Report,
    ensures
        ({
            let pieces = delivered(fresh_chunk(offsets), events);
            let report = after_all(fresh_chunk(offsets), events.drop_last()).after(
                events.last(),
            ).1;
            &&& tiles(pieces, offsets.0 as int, report->start as int)
            &&& report->end == offsets.1
        }),
{
    let c = fresh_chunk(offsets);
    lemma_delivered_tile_the_range(c, events);
    lemma_last_event(c, events);
}

/// The fetching of a range before it has begun.
pub open spec fn fresh_chunk(offsets: (u64, u64)) -> ChunkDownload {
    ChunkDownload {
        first: offsets.0,
        end: offsets.1,
        start_offset: offsets.0,
        cnt: 0,
        phase: ChunkPhase::Connecting,
    }
}

proof fn lemma_last_event(c: ChunkDownload, events: Seq<ChunkEvent>)
    requires
        events.len() > 0,
        possible(c, events),
    ensures
        possible(c, events.drop_last()),
        after_all(c, events.drop_last()).accepts(events.last()),
        after_all(c, events) == after_all(c, events.drop_last()).after(events.last()).0,
    decreases events.len(),
{
    if events.len() > 1 {
        let next = c.after(events[0]).0;
        lemma_last_event(next, events.skip(1));
        assert(events.skip(1).drop_last() == events.drop_last().skip(1));
        assert(events.drop_last()[0] == events[0]);
        assert(events.skip(1).last() == events.last());
    } else {
        assert(events.drop_last() == Seq::<ChunkEvent>::empty());
        assert(events.skip(1) == Seq::<ChunkEvent>::empty());
        assert(after_all(c.after(events[0]).0, events.skip(1)) == c.after(events[0]).0);
    }
}

/// Whether the attempts can happen one after the other, each for what the one
/// before it reported.
pub open spec fn possible_attempts(
    offsets: (u64, u64),
    attempts: Seq<Seq<ChunkEvent>>,
) -> bool
    decreases attempts.len(),
{
    attempts.len() > 0 ==> {
        let events = attempts[0];
        &&& possible(fresh_chunk(offsets), events)
        &&& attempts.len() > 1 ==> {
            &&& events.len() > 0
            &&& after_all(fresh_chunk(offsets), events.drop_last()).after(events.last()).1
                matches ChunkAction::Report { start, end }
            &&& possible_attempts((start, end), attempts.skip(1))
        }
    }
}

/// The pieces that the attempts handed on.
pub open spec fn delivered_by_attempts(
    offsets: (u64, u64),
    attempts: Seq<Seq<ChunkEvent>>,
) -> Seq<(int, int)>
    decreases attempts.len(),
{
    if attempts.len() == 0 {
        Seq::empty()
    } else {
        let c = fresh_chunk(offsets);
        let rest = after_all(c, attempts[0]);
        delivered(c, attempts[0]) + delivered_by_attempts(
            (rest.start_offset, rest.end),
            attempts.skip(1),
        )
    }
}

/// The offset of the first byte that no attempt handed on.
pub open spec fn reached_by_attempts(
    offsets: (u64, u64),
    attempts: Seq<Seq<ChunkEvent>>,
) -> int
    decreases attempts.len(),
{
    if attempts.len() == 0 {
        offsets.0 as int
    } else {
        let rest = after_all(fresh_chunk(offsets), attempts[0]);
        reached_by_attempts((rest.start_offset, rest.end), attempts.skip(1))
    }
}

/// However often a range is fetched again, what was handed on is the range from
/// its start up to some offset, each byte once and in order.
pub proof fn lemma_attempts_tile_the_range(offsets: (u64, u64), attempts: Seq<Seq<ChunkEvent>>)
    requires
        possible_attempts(offsets, attempts),
    ensures
        tiles(
            delivered_by_attempts(offsets, attempts),
            offsets.0 as int,
            reached_by_attempts(offsets, attempts),
        ),
    decreases attempts.len(),
{
    if attempts.len() > 0 {
        let c = fresh_chunk(offsets);
        let events = attempts[0];
        let rest = after_all(c, events);
        lemma_delivered_tile_the_range(c, events);
        if attempts.len() > 1 {
            lemma_last_event(c, events);
        }
        lemma_attempts_tile_the_range((rest.start_offset, rest.end), attempts.skip(1));
        lemma_tiles_join(
            delivered(c, events),
            delivered_by_attempts((rest.start_offset, rest.end), attempts.skip(1)),
            offsets.0 as int,
            rest.start_offset as int,
            reached_by_attempts(offsets, attempts),
        );
    }
}

proof fn lemma_tiles_join(
    left: Seq<(int, int)>,
    right: Seq<(int, int)>,
    from: int,
    middle: int,
    to: int,
)
    requires
        tiles(left, from, middle),
        tiles(right, middle, to),
    ensures
        tiles(left + right, from, to),
    decreases left.len(),
{
    if left.len() == 0 {
        assert(left + right == right);
    } else {
        lemma_tiles_join(left.skip(1), right, from + left[0].1, middle, to);
        assert((left + right).skip(1) == left.skip(1) + right);
    }
}

/// The pieces of several ranges, one range after the other.
pub open spec fn joined(pieces: Seq<Seq<(int, int)>>) -> Seq<(int, int)>
    decreases pieces.len(),
{
    if pieces.len() == 0 {
        Seq::empty()
    } else {
        joined(pieces.drop_last()) + pieces.last()
    }
}

/// Ranges whose pieces are all there are the file: where each range of the
/// content was handed on without gap or overlap, the last of them up to the end
/// of the content, the pieces of all ranges are the content without gap or
/// overlap.
pub proof fn lemma_ranges_put_the_file_together(
    ct_len: int,
    chunk_size: int,
    pieces: Seq<Seq<(int, int)>>,
)
    requires
        ct_len >= 0,
        chunk_size > 0,
        pieces.len() == chunk_bounds(ct_len, chunk_size).len(),
        forall|i: int|
            0 <= i < pieces.len() ==> tiles(
                #[trigger] pieces[i],
                chunk_bounds(ct_len, chunk_size)[i].0,
                if i == pieces.len() - 1 {
                    ct_len
                } else {
                    chunk_bounds(ct_len, chunk_size)[i].1 + 1
                },
            ),
    ensures
        tiles(joined(pieces), 0, ct_len),
{
    let bounds = chunk_bounds(ct_len, chunk_size);
    lemma_chunks_are_contiguous(ct_len, chunk_size);
    let last = pieces.len() - 1;
    let front = pieces.drop_last();
    assert forall|i: int| 0 <= i < front.len() implies tiles(
        #[trigger] front[i],
        bounds[i].0,
        bounds[i].1 + 1,
    ) by {
        assert(front[i] == pieces[i]);
    }
    lemma_joined_ranges(bounds, front);
    assert(tiles(pieces[last], bounds[last].0, ct_len));
    lemma_tiles_join(joined(front), pieces.last(), 0, bounds[last].0, ct_len);
}

proof fn lemma_joined_ranges(bounds: Seq<(int, int)>, pieces: Seq<Seq<(int, int)>>)
    requires
        contiguous(bounds),
        pieces.len() < bounds.len(),
        forall|i: int|
            0 <= i < pieces.len() ==> tiles(
                #[trigger] pieces[i],
                bounds[i].0,
                bounds[i].1 + 1,
            ),
    ensures
        tiles(joined(pieces), bounds[0].0, bounds[pieces.len() as int].0),
    decreases pieces.len(),
{
    if pieces.len() > 0 {
        let last = pieces.len() - 1;
        let front = pieces.drop_last();
        assert(forall|i: int| 0 <= i < front.len() ==> front[i] == pieces[i]);
        lemma_joined_ranges(bounds, front);
        assert(tiles(pieces[last], bounds[last].0, bounds[last].1 + 1));
        assert(bounds[last + 1].0 == bounds[last].1 + 1);
        lemma_tiles_join(
            joined(front),
            pieces.last(),
            bounds[0].0,
            bounds[last].0,
            bounds[last + 1].0,
        );
    }
}

/// The number of bytes of the pieces.
pub open spec fn bytes_total(pieces: Seq<(int, int)>) -> int
    decreases pieces.len(),
{
    if pieces.len() == 0 {
        0
    } else {
        pieces[0].1 + bytes_total(pieces.skip(1))
    }
}

/// Pieces that follow one another from one offset to another hold as many bytes
/// as lie between the two.
pub proof fn lemma_tiles_total(pieces: Seq<(int, int)>, from: int, to: int)
    requires
        tiles(pieces, from, to),
    ensures
        bytes_total(pieces) == to - from,
        from <= to,
    decreases pieces.len(),
{
    if pieces.len() > 0 {
        lemma_tiles_total(pieces.skip(1), from + pieces[0].1, to);
    }
}

/// As many bytes as the content has are the content: where the pieces of each
/// range follow one another from its start up to some offset of the range, none
/// beyond the content, and all pieces together hold no fewer bytes than the
/// content, the pieces of all ranges are the content without gap or overlap.
pub proof fn lemma_enough_bytes_are_the_file(
    ct_len: int,
    chunk_size: int,
    pieces: Seq<Seq<(int, int)>>,
    ends: Seq<int>,
)
    requires
        ct_len >= 0,
        chunk_size > 0,
        pieces.len() == chunk_bounds(ct_len, chunk_size).len(),
        ends.len() == pieces.len(),
        forall|i: int|
            0 <= i < pieces.len() ==> {
                &&& tiles(#[trigger] pieces[i], chunk_bounds(ct_len, chunk_size)[i].0, ends[i])
                &&& ends[i] <= chunk_bounds(ct_len, chunk_size)[i].1 + 1
                &&& ends[i] <= ct_len
            },
        bytes_total(joined(pieces)) >= ct_len,
    ensures
        tiles(joined(pieces), 0, ct_len),
{
    let bounds = chunk_bounds(ct_len, chunk_size);
    lemma_chunks_are_contiguous(ct_len, chunk_size);
    assert forall|i: int| 0 <= i < pieces.len() implies fits(
        bounds,
        ct_len,
        i,
        #[trigger] pieces[i],
        ends[i],
    ) by {
        assert(tiles(pieces[i], chunk_bounds(ct_len, chunk_size)[i].0, ends[i]));
        assert(ends[i] <= chunk_bounds(ct_len, chunk_size)[i].1 + 1);
    }
    lemma_total_is_bounded(bounds, ct_len, pieces, ends);
    assert forall|i: int| 0 <= i < pieces.len() implies tiles(
        #[trigger] pieces[i],
        chunk_bounds(ct_len, chunk_size)[i].0,
        if i == pieces.len() - 1 {
            ct_len
        } else {
            chunk_bounds(ct_len, chunk_size)[i].1 + 1
        },
    ) by {
        assert(tiles(pieces[i], bounds[i].0, ends[i]));
        assert(ends[i] == range_end(bounds, ct_len, i));
    }
    lemma_ranges_put_the_file_together(ct_len, chunk_size, pieces);
}

/// The offset behind the range of number `i` of some content.
spec fn range_end(bounds: Seq<(int, int)>, ct_len: int, i: int) -> int {
    if i == bounds.len() - 1 {
        ct_len
    } else {
        bounds[i].1 + 1
    }
}

/// Whether pieces follow one another from the start of the range of number `i` up to
/// `end`, not beyond the range.
spec fn fits(
    bounds: Seq<(int, int)>,
    ct_len: int,
    i: int,
    pieces: Seq<(int, int)>,
    end: int,
) -> bool {
    &&& tiles(pieces, bounds[i].0, end)
    &&& end <= range_end(bounds, ct_len, i)
}

/// The first ranges hold no more bytes than lie before the next one, and as many
/// only where each of them is whole.
proof fn lemma_total_is_bounded(
    bounds: Seq<(int, int)>,
    ct_len: int,
    pieces: Seq<Seq<(int, int)>>,
    ends: Seq<int>,
)
    requires
        contiguous(bounds),
        bounds.len() > 0,
        bounds[0].0 == 0,
        pieces.len() <= bounds.len(),
        ends.len() >= pieces.len(),
        forall|i: int|
            0 <= i < pieces.len() ==> fits(bounds, ct_len, i, #[trigger] pieces[i], ends[i]),
    ensures
        ({
            let most = if pieces.len() == bounds.len() {
                ct_len
            } else {
                bounds[pieces.len() as int].0
            };
            &&& bytes_total(joined(pieces)) <= most
            &&& bytes_total(joined(pieces)) == most ==> forall|i: int|
                0 <= i < pieces.len() ==> #[trigger] ends[i] == range_end(bounds, ct_len, i)
        }),
    decreases pieces.len(),
{
    if pieces.len() > 0 {
        let last = pieces.len() - 1;
        let front = pieces.drop_last();
        assert(forall|i: int| 0 <= i < front.len() ==> front[i] == pieces[i]);
        lemma_total_is_bounded(bounds, ct_len, front, ends);
        assert(fits(bounds, ct_len, last, pieces[last], ends[last]));
        lemma_tiles_total(pieces[last], bounds[last].0, ends[last]);
        lemma_total_of_both(joined(front), pieces.last());
        if pieces.len() < bounds.len() {
            assert(bounds[last + 1].0 == bounds[last].1 + 1);
        }
    }
}

/// The offset behind a range of a file of `len` bytes. A range may go beyond the
/// file; what is fetched of it does not.
pub open spec fn range_stop(offsets: (u64, u64), len: int) -> int {
    if offsets.1 + 1 < len {
        offsets.1 + 1
    } else {
        len
    }
}

/// The number of bytes that ranges of a file of `len` bytes hold.
pub open spec fn left_total(offsets: Seq<(u64, u64)>, len: int) -> int
    decreases offsets.len(),
{
    if offsets.len() == 0 {
        0
    } else {
        left_total(offsets.drop_last(), len) + range_stop(offsets.last(), len) - offsets.last().0
    }
}

/// As many bytes as were left are what was left: where the pieces of each of some
/// ranges follow one another from its start up to some offset, none beyond the
/// range or the file, and all pieces together hold no fewer bytes than the
/// ranges, each range is whole.
pub proof fn lemma_enough_bytes_are_the_ranges(
    offsets: Seq<(u64, u64)>,
    len: int,
    pieces: Seq<Seq<(int, int)>>,
    ends: Seq<int>,
)
    requires
        pieces.len() == offsets.len(),
        ends.len() == offsets.len(),
        forall|i: int|
            0 <= i < offsets.len() ==> {
                &&& tiles(pieces[i], (#[trigger] offsets[i]).0 as int, ends[i])
                &&& ends[i] <= range_stop(offsets[i], len)
            },
        bytes_total(joined(pieces)) >= left_total(offsets, len),
    ensures
        forall|i: int|
            0 <= i < offsets.len() ==> ends[i] == range_stop(#[trigger] offsets[i], len),
{
    lemma_left_is_bounded(offsets, len, pieces, ends);
}

/// The pieces of ranges hold no more bytes than the ranges, and as many only
/// where each range is whole.
proof fn lemma_left_is_bounded(
    offsets: Seq<(u64, u64)>,
    len: int,
    pieces: Seq<Seq<(int, int)>>,
    ends: Seq<int>,
)
    requires
        pieces.len() == offsets.len(),
        ends.len() == offsets.len(),
        forall|i: int|
            0 <= i < offsets.len() ==> {
                &&& tiles(pieces[i], (#[trigger] offsets[i]).0 as int, ends[i])
                &&& ends[i] <= range_stop(offsets[i], len)
            },
    ensures
        bytes_total(joined(pieces)) <= left_total(offsets, len),
        bytes_total(joined(pieces)) == left_total(offsets, len) ==> forall|i: int|
            0 <= i < offsets.len() ==> ends[i] == range_stop(#[trigger] offsets[i], len),
    decreases offsets.len(),
{
    if offsets.len() > 0 {
        let last = offsets.len() - 1;
        let front = offsets.drop_last();
        assert forall|i: int| 0 <= i < front.len() implies {
            &&& tiles(pieces.drop_last()[i], (#[trigger] front[i]).0 as int, ends.drop_last()[i])
            &&& ends.drop_last()[i] <= range_stop(front[i], len)
        } by {
            assert(front[i] == offsets[i]);
        }
        lemma_left_is_bounded(front, len, pieces.drop_last(), ends.drop_last());
        assert(tiles(pieces[last], offsets[last].0 as int, ends[last]));
        lemma_tiles_total(pieces[last], offsets[last].0 as int, ends[last]);
        lemma_total_of_both(joined(pieces.drop_last()), pieces.last());
        if bytes_total(joined(pieces)) == left_total(offsets, len) {
            assert forall|i: int| 0 <= i < offsets.len() implies ends[i] == range_stop(
                #[trigger] offsets[i],
                len,
            ) by {
                if i < last {
                    assert(front[i] == offsets[i]);
                }
            }
        }
    }
}

proof fn lemma_total_of_both(left: Seq<(int, int)>, right: Seq<(int, int)>)
    ensures
        bytes_total(left + right) == bytes_total(left) + bytes_total(right),
    decreases left.len(),
{
    if left.len() == 0 {
        assert(left + right == right);
    } else {
        lemma_total_of_both(left.skip(1), right);
        assert((left + right).skip(1) == left.skip(1) + right);
    }
}

/// A range ends as done only where its bytes are all in, the answer has ended
/// or an empty piece came.
pub proof fn lemma_finish_reasons(c: ChunkDownload, event: ChunkEvent)
    requires
        c.wf(),
        c.accepts(event),
        c.after(event).1 is Finish,
    ensures
        event == ChunkEvent::StreamEnd || event == ChunkEvent::Piece(0) || (event
            == ChunkEvent::Sent && c.after(event).0.start_offset == c.end + 1),
{
}

proof fn lemma_range_is_printable(first: nat, end: nat)
    ensures
        forall|i: int|
            0 <= i < range_text(first, end).len() ==> ' ' <= #[trigger] range_text(first, end)[i]
                <= '~',
{
    reveal_strlit("bytes=");
    reveal_strlit("-");
    lemma_decimal_digits(first);
    lemma_decimal_digits(end);
}

/// Hands out the ranges of a download, one after the other, until there is none
/// left or the download is cancelled.
pub struct Dispatcher {
    pub chunk_offsets: Vec<(u64, u64)>,
    /// The number of ranges handed out; that of all ranges once nothing is
    /// handed out any more.
    pub next: usize,
}

impl Dispatcher {
    pub open spec fn wf(self) -> bool {
        self.next <= self.chunk_offsets@.len()
    }

    pub fn new(chunk_offsets: Vec<(u64, u64)>) -> (r: Dispatcher)
        ensures
            r.chunk_offsets == chunk_offsets,
            r.next == 0,
            r.wf(),
    {
        Dispatcher { chunk_offsets, next: 0 }
    }

    /// The next range to fetch, if there is one.
    pub fn next_chunk(&mut self, cancelled: bool) -> (r: Option<(u64, u64)>)
        requires
            old(self).wf(),
        ensures
            final(self).wf(),
            final(self).chunk_offsets == old(self).chunk_offsets,
            (r, final(self).next as int) == next_range(
                old(self).chunk_offsets@,
                old(self).next as int,
                cancelled,
            ),
    {
        if self.next < self.chunk_offsets.len() && !cancelled {
            let offsets: (u64, u64) = self.chunk_offsets[self.next];
            self.next = self.next + 1;
            Some(offsets)
        } else {
            self.next = self.chunk_offsets.len();
            None
        }
    }
}

/// The range that is handed out behind the first `next`, and the number of
/// ranges that count as handed out then. A cancelled download hands out nothing
/// any more.
pub open spec fn next_range(offsets: Seq<(u64, u64)>, next: int, cancelled: bool) -> (
    Option<(u64, u64)>,
    int,
) {
    if next < offsets.len() && !cancelled {
        (Some(offsets[next]), next + 1)
    } else {
        (None, offsets.len() as int)
    }
}

/// The ranges that are handed out behind the first `next`, where `cancels` says
/// of each time a range is asked for whether the download was cancelled then.
pub open spec fn handed_out(offsets: Seq<(u64, u64)>, next: int, cancels: Seq<bool>) -> Seq<
    (u64, u64),
>
    decreases cancels.len(),
{
    if cancels.len() == 0 {
        Seq::empty()
    } else {
        let (range, then_next) = next_range(offsets, next, cancels[0]);
        match range {
            Some(range) => seq![range] + handed_out(offsets, then_next, cancels.skip(1)),
            None => handed_out(offsets, then_next, cancels.skip(1)),
        }
    }
}

/// The ranges are handed out in order, each once and from the first on: as many
/// as were asked for before the download was cancelled, or all of them.
pub proof fn lemma_ranges_are_handed_out_in_order(
    offsets: Seq<(u64, u64)>,
    next: int,
    cancels: Seq<bool>,
)
    requires
        0 <= next <= offsets.len(),
    ensures
        ({
            let n = asked_before_cancel(cancels);
            let end = if next + n < offsets.len() {
                next + n
            } else {
                offsets.len() as int
            };
            handed_out(offsets, next, cancels) == offsets.subrange(next, end)
        }),
    decreases cancels.len(),
{
    if cancels.len() > 0 {
        let (range, then_next) = next_range(offsets, next, cancels[0]);
        lemma_ranges_are_handed_out_in_order(offsets, then_next, cancels.skip(1));
        lemma_asked_bounds(cancels.skip(1));
    }
}

/// The number of times a range is asked for before the download is cancelled.
pub open spec fn asked_before_cancel(cancels: Seq<bool>) -> int
    decreases cancels.len(),
{
    if cancels.len() == 0 || cancels[0] {
        0
    } else {
        1 + asked_before_cancel(cancels.skip(1))
    }
}

proof fn lemma_asked_bounds(cancels: Seq<bool>)
    ensures
        0 <= asked_before_cancel(cancels) <= cancels.len(),
    decreases cancels.len(),
{
    if cancels.len() > 0 && !cancels[0] {
        lemma_asked_bounds(cancels.skip(1));
    }
}

/// The pieces that the actions hand on, each with its offset and its number of
/// bytes, in order.
pub open spec fn sends(actions: Seq<ChunkAction>) -> Seq<(int, int)>
    decreases actions.len(),
{
    if actions.len() == 0 {
        Seq::empty()
    } else {
        let before = sends(actions.drop_last());
        match actions.last() {
            ChunkAction::Send { count, offset } => before.push((offset as int, count as int)),
            _ => before,
        }
    }
}

/// The numbers of bytes of the pieces that were read, in order, without an empty
/// one.
pub open spec fn pieces_read(events: Seq<ChunkEvent>) -> Seq<int>
    decreases events.len(),
{
    if events.len() == 0 {
        Seq::empty()
    } else {
        let before = pieces_read(events.drop_last());
        match events.last() {
            ChunkEvent::Piece(count) => if count > 0 {
                before.push(count as int)
            } else {
                before
            },
            _ => before,
        }
    }
}

/// The number of bytes of the last of the pieces.
pub open spec fn last_count(pieces: Seq<(int, int)>) -> int {
    if pieces.len() > 0 {
        pieces.last().1
    } else {
        0
    }
}

/// Every piece that is read of a range is handed on once, in the order in which
/// the pieces are read, with the offset at which it belongs: the first with the
/// first offset of the range, each other one with the offset behind the piece
/// before it. The law is about the calls of [`ChunkDownload::step`] that follow
/// one another from [`ChunkDownload::new`] on, and about what they return.
pub proof fn lemma_sends_are_the_range(
    offsets: (u64, u64),
    states: Seq<ChunkDownload>,
    events: Seq<ChunkEvent>,
    actions: Seq<ChunkAction>,
)
    requires
        states.len() == events.len() + 1,
        actions.len() == events.len(),
        call_ensures(ChunkDownload::new, (offsets,), states[0]),
        forall|i: int|
            #![trigger events[i]]
            0 <= i < events.len() ==> {
                &&& states[i].accepts(events[i])
                &&& exists|c: &mut ChunkDownload|
                    *c == states[i] && *final(c) == states[i + 1] && #[trigger] call_ensures(
                        ChunkDownload::step,
                        (c, events[i]),
                        actions[i],
                    )
            },
    ensures
        ({
            let sent = sends(actions);
            &&& sent.len() == pieces_read(events).len()
            &&& forall|k: int|
                0 <= k < sent.len() ==> (#[trigger] sent[k]).1 == pieces_read(events)[k]
            &&& sent.len() > 0 ==> sent[0].0 == offsets.0
            &&& forall|k: int|
                0 < k < sent.len() ==> (#[trigger] sent[k]).0 == sent[k - 1].0 + sent[k - 1].1
            &&& tiles(sent, offsets.0 as int, offsets.0 + bytes_total(sent))
        }),
{
    assert forall|i: int| 0 <= i < events.len() implies {
        &&& states[i].accepts(#[trigger] events[i])
        &&& (states[i + 1], actions[i]) == states[i].after(events[i])
    } by {}
    lemma_sends_up_to(offsets, states, events, actions, events.len() as int);
    assert(events.take(events.len() as int) == events);
    assert(actions.take(actions.len() as int) == actions);
}

proof fn lemma_sends_up_to(
    offsets: (u64, u64),
    states: Seq<ChunkDownload>,
    events: Seq<ChunkEvent>,
    actions: Seq<ChunkAction>,
    n: int,
)
    requires
        states.len() == events.len() + 1,
        actions.len() == events.len(),
        states[0] == fresh_chunk(offsets),
        forall|i: int|
            0 <= i < events.len() ==> {
                &&& states[i].accepts(#[trigger] events[i])
                &&& (states[i + 1], actions[i]) == states[i].after(events[i])
            },
        0 <= n <= events.len(),
    ensures
        ({
            let sent = sends(actions.take(n));
            let read = pieces_read(events.take(n));
            &&& sent.len() == read.len()
            &&& forall|k: int| 0 <= k < sent.len() ==> (#[trigger] sent[k]).1 == read[k]
            &&& sent.len() > 0 ==> sent[0].0 == offsets.0
            &&& forall|k: int|
                0 < k < sent.len() ==> (#[trigger] sent[k]).0 == sent[k - 1].0 + sent[k - 1].1
            &&& tiles(sent, offsets.0 as int, offsets.0 + bytes_total(sent))
        }),
    decreases n,
{
    if n > 0 {
        lemma_sends_up_to(offsets, states, events, actions, n - 1);
        lemma_range_up_to(offsets, states, events, actions, n - 1);
        lemma_range_up_to(offsets, states, events, actions, n);
        assert(events.take(n).drop_last() == events.take(n - 1));
        assert(actions.take(n).drop_last() == actions.take(n - 1));
        assert(states[n - 1].accepts(events[n - 1]));
        let before = sends(actions.take(n - 1));
        if let ChunkAction::Send { count, offset } = actions[n - 1] {
            let piece = (offset as int, count as int);
            let from = offsets.0 as int;
            let middle = from + bytes_total(before);
            lemma_one_more_piece(before, piece, from, middle);
        }
    }
}

/// A piece behind others that follow one another follows them too.
proof fn lemma_one_more_piece(
    before: Seq<(int, int)>,
    piece: (int, int),
    from: int,
    middle: int,
)
    requires
        tiles(before, from, middle),
        piece.0 == middle,
        piece.1 > 0,
    ensures
        tiles(before.push(piece), from, middle + piece.1),
        bytes_total(before.push(piece)) == bytes_total(before) + piece.1,
        before.len() > 0 ==> before.last().0 + before.last().1 == middle,
        before.len() == 0 ==> from == middle,
{
    let one = seq![piece];
    assert(before.push(piece) == before + one);
    assert(one.skip(1) == Seq::<(int, int)>::empty());
    assert(tiles(one.skip(1), middle + piece.1, middle + piece.1));
    assert(tiles(one, middle, middle + piece.1));
    lemma_tiles_join(before, one, from, middle, middle + piece.1);
    lemma_total_of_both(before, one);
    assert(bytes_total(one.skip(1)) == 0);
    if before.len() > 0 {
        lemma_tiles_last(before, from, middle);
    }
}

proof fn lemma_tiles_last(pieces: Seq<(int, int)>, from: int, to: int)
    requires
        tiles(pieces, from, to),
        pieces.len() > 0,
    ensures
        pieces.last().0 + pieces.last().1 == to,
    decreases pieces.len(),
{
    let rest = pieces.skip(1);
    assert(tiles(rest, from + pieces[0].1, to));
    if pieces.len() > 1 {
        lemma_tiles_last(rest, from + pieces[0].1, to);
        assert(rest.last() == pieces.last());
    }
}

/// Where the fetching of a range stands after its first `n` calls.
proof fn lemma_range_up_to(
    offsets: (u64, u64),
    states: Seq<ChunkDownload>,
    events: Seq<ChunkEvent>,
    actions: Seq<ChunkAction>,
    n: int,
)
    requires
        states.len() == events.len() + 1,
        actions.len() == events.len(),
        states[0] == fresh_chunk(offsets),
        forall|i: int|
            0 <= i < events.len() ==> {
                &&& states[i].accepts(#[trigger] events[i])
                &&& (states[i + 1], actions[i]) == states[i].after(events[i])
            },
        0 <= n <= events.len(),
    ensures
        ({
            let c = states[n];
            let sent = sends(actions.take(n));
            &&& c.wf()
            &&& c.first == offsets.0
            &&& c.end == offsets.1
            &&& c.cnt == bytes_total(sent)
            &&& c.phase matches ChunkPhase::Sending(count) ==> last_count(sent) == count
            &&& c.phase is Connecting <==> n == 0
            &&& c.phase is Reading <==> n > 0 && actions[n - 1] is Read
            &&& c.phase is Sending <==> n > 0 && actions[n - 1] is Send
            &&& n > 0 ==> (states[n], actions[n - 1]) == states[n - 1].after(events[n - 1])
        }),
    decreases n,
{
    if n > 0 {
        lemma_range_up_to(offsets, states, events, actions, n - 1);
        assert(states[n - 1].accepts(events[n - 1]));
        assert((states[n], actions[n - 1]) == states[n - 1].after(events[n - 1]));
        assert(actions.take(n).drop_last() == actions.take(n - 1));
        let before = sends(actions.take(n - 1));
        if let ChunkAction::Send { count, offset } = actions[n - 1] {
            let piece = (offset as int, count as int);
            assert(before.push(piece) == before + seq![piece]);
            lemma_total_of_both(before, seq![piece]);
            assert(bytes_total(seq![piece].skip(1)) == 0);
        }
    } else {
        assert(actions.take(0) == Seq::<ChunkAction>::empty());
    }
}

/// What is done for a range follows from what happened up to there. A piece is
/// handed on, and an empty one ends the range. Once a piece is handed on, the
/// range is done where as many bytes were read as it has offsets, and is read on
/// otherwise. Whatever fails, all of the range behind what was handed on is
/// reported.
pub proof fn lemma_what_is_done_for_a_range(
    offsets: (u64, u64),
    states: Seq<ChunkDownload>,
    events: Seq<ChunkEvent>,
    actions: Seq<ChunkAction>,
)
    requires
        events.len() > 0,
        states.len() == events.len() + 1,
        actions.len() == events.len(),
        call_ensures(ChunkDownload::new, (offsets,), states[0]),
        forall|i: int|
            #![trigger events[i]]
            0 <= i < events.len() ==> {
                &&& states[i].accepts(events[i])
                &&& exists|c: &mut ChunkDownload|
                    *c == states[i] && *final(c) == states[i + 1] && #[trigger] call_ensures(
                        ChunkDownload::step,
                        (c, events[i]),
                        actions[i],
                    )
            },
    ensures
        ({
            let sent = sends(actions);
            let action = actions.last();
            match events.last() {
                ChunkEvent::Connected => action == ChunkAction::Read,
                ChunkEvent::Piece(n) => if n == 0 {
                    action == ChunkAction::Finish
                } else {
                    action is Send && action->count == n
                },
                ChunkEvent::Sent => if bytes_total(sent) == offsets.1 - offsets.0 + 1 {
                    action == ChunkAction::Finish
                } else {
                    action == ChunkAction::Read
                },
                ChunkEvent::StreamEnd => action == ChunkAction::Finish,
                ChunkEvent::ConnectFailed | ChunkEvent::ReadFailed => {
                    &&& action matches ChunkAction::Report { start, end }
                    &&& start == offsets.0 + bytes_total(sent)
                    &&& end == offsets.1
                },
                ChunkEvent::SendFailed => {
                    &&& action matches ChunkAction::Report { start, end }
                    &&& start == offsets.0 + bytes_total(sent) - last_count(sent)
                    &&& end == offsets.1
                },
            }
        }),
{
    assert forall|i: int| 0 <= i < events.len() implies {
        &&& states[i].accepts(#[trigger] events[i])
        &&& (states[i + 1], actions[i]) == states[i].after(events[i])
    } by {}
    let n = events.len() as int;
    lemma_range_up_to(offsets, states, events, actions, n - 1);
    lemma_range_up_to(offsets, states, events, actions, n);
    assert(states[n - 1].accepts(events[n - 1]));
    assert(actions.take(n) == actions);
    assert(actions.drop_last() == actions.take(n - 1));
}

/// Whatever can come of what is done for a range can be taken note of, as far as
/// its offsets can be counted.
pub proof fn lemma_range_takes_every_event(
    offsets: (u64, u64),
    states: Seq<ChunkDownload>,
    events: Seq<ChunkEvent>,
    actions: Seq<ChunkAction>,
    event: ChunkEvent,
)
    requires
        states.len() == events.len() + 1,
        actions.len() == events.len(),
        call_ensures(ChunkDownload::new, (offsets,), states[0]),
        forall|i: int|
            #![trigger events[i]]
            0 <= i < events.len() ==> {
                &&& states[i].accepts(events[i])
                &&& exists|c: &mut ChunkDownload|
                    *c == states[i] && *final(c) == states[i + 1] && #[trigger] call_ensures(
                        ChunkDownload::step,
                        (c, events[i]),
                        actions[i],
                    )
            },
        if events.len() == 0 {
            event == ChunkEvent::ConnectFailed || (event == ChunkEvent::Connected && offsets.0
                <= offsets.1)
        } else {
            match actions.last() {
                ChunkAction::Read => match event {
                    ChunkEvent::StreamEnd | ChunkEvent::ReadFailed => true,
                    ChunkEvent::Piece(n) => offsets.0 + bytes_total(sends(actions)) + n
                        <= u64::MAX,
                    _ => false,
                },
                ChunkAction::Send { .. } => event == ChunkEvent::SendFailed || (event
                    == ChunkEvent::Sent && offsets.1 - offsets.0 < u64::MAX),
                _ => false,
            }
        },
    ensures
        states.last().accepts(event),
        forall|c: &mut ChunkDownload|
            *c == states.last() ==> #[trigger] call_requires(ChunkDownload::step, (c, event)),
{
    assert forall|i: int| 0 <= i < events.len() implies {
        &&& states[i].accepts(#[trigger] events[i])
        &&& (states[i + 1], actions[i]) == states[i].after(events[i])
    } by {}
    let n = events.len() as int;
    lemma_range_up_to(offsets, states, events, actions, n);
    assert(actions.take(n) == actions);
}

/// The `Range` header asks for the offsets from the first to the last: behind the
/// unit stand the two numbers, with a hyphen between them.
pub proof fn lemma_range_is_asked_for(c: ChunkDownload, text: String)
    requires
        call_ensures(ChunkDownload::byte_range, (&c,), text),
    ensures
        exists|k: int|
            6 < k < text@.len() - 1 && text@.take(6) == seq!['b', 'y', 't', 'e', 's', '=']
                && #[trigger] text@[k] == '-' && number_of(text@.subrange(6, k), u64::MAX as int)
                == Ok::<int, NumberError>(c.first as int) && number_of(
                text@.skip(k + 1),
                u64::MAX as int,
            ) == Ok::<int, NumberError>(c.end as int),
{
    reveal_strlit("bytes=");
    reveal_strlit("-");
    let first = decimal(c.first as nat);
    let end = decimal(c.end as nat);
    lemma_decimal_digits(c.first as nat);
    lemma_decimal_digits(c.end as nat);
    lemma_decimal_is_read_back(c.first as nat, u64::MAX as int);
    lemma_decimal_is_read_back(c.end as nat, u64::MAX as int);
    let k: int = 6 + first.len() as int;
    assert(text@.take(6) == seq!['b', 'y', 't', 'e', 's', '=']);
    assert(text@[k] == '-');
    assert(text@.subrange(6, k) == first);
    assert(text@.skip(k + 1) == end);
}

/// The request for a range carries the `Range` that the range is asked for by,
/// takes any type of content and keeps the connection; all other headers of the
/// download are as they were.
pub proof fn lemma_range_request(
    c: ChunkDownload,
    headers: HeaderMap<HeaderValue>,
    made: HeaderMap<HeaderValue>,
    text: String,
    name: Seq<char>,
)
    requires
        call_ensures(
            ChunkDownload::request_headers,
            (&c, &headers),
            Ok::<HeaderMap<HeaderValue>, HeaderError>(made),
        ),
        call_ensures(ChunkDownload::byte_range, (&c,), text),
    ensures
        ({
            let before = header_entries(headers);
            let after = header_entries(made);
            &&& after.contains_key("range"@)
            &&& after["range"@] == seq![vstd::utf8::encode_utf8(text@)]
            &&& after.contains_key("accept"@)
            &&& after["accept"@] == seq![vstd::utf8::encode_utf8("*/*"@)]
            &&& after.contains_key("connection"@)
            &&& after["connection"@] == seq![vstd::utf8::encode_utf8("keep-alive"@)]
            &&& name != "range"@ && name != "accept"@ && name != "connection"@ ==> {
                &&& after.contains_key(name) == before.contains_key(name)
                &&& before.contains_key(name) ==> after[name] == before[name]
            }
        }),
{
    reveal_strlit("range");
    reveal_strlit("accept");
    reveal_strlit("connection");
    assert("range"@.len() != "accept"@.len());
    assert("range"@.len() != "connection"@.len());
    assert("accept"@.len() != "connection"@.len());
}

/// A request for a range can be made wherever the headers of the download have
/// fewer names than a map surely holds.
pub proof fn lemma_range_request_is_made(
    c: ChunkDownload,
    headers: HeaderMap<HeaderValue>,
    r: Result<HeaderMap<HeaderValue>, HeaderError>,
)
    requires
        call_ensures(ChunkDownload::request_headers, (&c, &headers), r),
        header_entries(headers).dom().len() < 6_000,
    ensures
        r is Ok,
{
}

/// The ranges are handed out in the order in which they are to be fetched, one
/// for each time that one is asked for, until the download is cancelled or there
/// is none left; from then on there is none. The law is about the calls of
/// [`Dispatcher::next_chunk`] that follow one another from [`Dispatcher::new`] on.
pub proof fn lemma_each_range_is_handed_out_once(
    offsets: Vec<(u64, u64)>,
    states: Seq<Dispatcher>,
    cancels: Seq<bool>,
    ranges: Seq<Option<(u64, u64)>>,
    i: int,
)
    requires
        states.len() == cancels.len() + 1,
        ranges.len() == cancels.len(),
        call_ensures(Dispatcher::new, (offsets,), states[0]),
        forall|k: int|
            #![trigger ranges[k]]
            0 <= k < cancels.len() ==> exists|d: &mut Dispatcher|
                *d == states[k] && *final(d) == states[k + 1] && #[trigger] call_ensures(
                    Dispatcher::next_chunk,
                    (d, cancels[k]),
                    ranges[k],
                ),
        0 <= i < cancels.len(),
    ensures
        ranges[i] == if i < offsets@.len() && (forall|k: int| 0 <= k <= i ==> !cancels[k]) {
            Some(offsets@[i])
        } else {
            None
        },
{
    assert forall|k: int| 0 <= k < cancels.len() implies {
        &&& states[k + 1].chunk_offsets == states[k].chunk_offsets
        &&& if cancels[k] || states[k].next >= states[k].chunk_offsets@.len() {
            (#[trigger] ranges[k]) is None && states[k + 1].next
                == states[k].chunk_offsets@.len()
        } else {
            ranges[k] == Some(states[k].chunk_offsets@[states[k].next as int]) && states[k
                + 1].next == states[k].next + 1
        }
    } by {
        let d = choose|d: &mut Dispatcher|
            *d == states[k] && *final(d) == states[k + 1] && #[trigger] call_ensures(
                Dispatcher::next_chunk,
                (d, cancels[k]),
                ranges[k],
            );
        assert(call_ensures(Dispatcher::next_chunk, (d, cancels[k]), ranges[k]));
    }
    lemma_handed_out_so_far(offsets, states, cancels, ranges, i);
}

proof fn lemma_handed_out_so_far(
    offsets: Vec<(u64, u64)>,
    states: Seq<Dispatcher>,
    cancels: Seq<bool>,
    ranges: Seq<Option<(u64, u64)>>,
    i: int,
)
    requires
        states.len() == cancels.len() + 1,
        ranges.len() == cancels.len(),
        states[0].chunk_offsets == offsets,
        states[0].next == 0,
        forall|k: int|
            0 <= k < cancels.len() ==> {
                &&& states[k + 1].chunk_offsets == states[k].chunk_offsets
                &&& if cancels[k] || states[k].next >= states[k].chunk_offsets@.len() {
                    (#[trigger] ranges[k]) is None && states[k + 1].next
                        == states[k].chunk_offsets@.len()
                } else {
                    ranges[k] == Some(states[k].chunk_offsets@[states[k].next as int])
                        && states[k + 1].next == states[k].next + 1
                }
            },
        0 <= i <= cancels.len(),
    ensures
        states[i].chunk_offsets == offsets,
        states[i].next == if i < offsets@.len() && (forall|k: int| 0 <= k < i ==> !cancels[k]) {
            i
        } else {
            offsets@.len() as int
        },
    decreases i,
{
    if i > 0 {
        lemma_handed_out_so_far(offsets, states, cancels, ranges, i - 1);
        assert(ranges[i - 1] == ranges[i - 1]);
    }
}

} // verus!
