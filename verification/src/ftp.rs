//! Downloads over FTP.
use vstd::prelude::*;

use crate::address::{texts, Address};
use crate::hooks::{in_turn_until_error, lemma_in_turn_until_error};
use crate::hooks::{send_content, EventsHandler, HookError};
use crate::numbers::{decimal, decimal_text, lemma_decimal_is_read_back};
use crate::numbers::{number_of, NumberError};

verus! {

/// The number of bytes that are asked for at one time.
pub const FTP_BUFFER: usize = 2048;

/// What an address lacks for a download over FTP.
#[derive(Clone, Copy, Debug, PartialEq, Eq, Structural)]
pub enum FtpErrorKind {
    NoHost,
    NoPort,
    /// The path cannot be divided into segments.
    NoPathSegments,
    /// The path has no segment.
    EmptyPathSegments,
}

/// The error of an address that cannot be downloaded from over FTP.
#[derive(Clone, Debug)]
pub struct FtpError {
    pub kind: FtpErrorKind,
    /// The address.
    pub url: String,
}

impl FtpErrorKind {
    /// What a message about the error starts with.
    pub open spec fn prefix(self) -> Seq<char> {
        match self {
            FtpErrorKind::NoHost => "failed to parse hostname from url: "@,
            FtpErrorKind::NoPort => "failed to parse port from url: "@,
            FtpErrorKind::NoPathSegments => "failed to get url path segments: "@,
            FtpErrorKind::EmptyPathSegments => "got empty path segments from url: "@,
        }
    }
}

impl FtpError {
    pub fn message(&self) -> (r: String)
        ensures
            r@ == self.kind.prefix() + self.url@,
    {
        let mut text = String::new();
        match self.kind {
            FtpErrorKind::NoHost => text.append("failed to parse hostname from url: "),
            FtpErrorKind::NoPort => text.append("failed to parse port from url: "),
            FtpErrorKind::NoPathSegments => text.append("failed to get url path segments: "),
            FtpErrorKind::EmptyPathSegments => text.append("got empty path segments from url: "),
        }
        text.append(self.url.as_str());
        assert(text@ == self.kind.prefix() + self.url@);
        text
    }
}

/// Where a file is to be fetched from, and as whom.
#[derive(Clone, Debug)]
pub struct FtpPlan {
    /// The host and the port.
    pub server: String,
    pub username: String,
    pub password: String,
    /// The directories to enter, one after the other.
    pub directories: Vec<String>,
    /// The name of the file in the last directory.
    pub file: String,
}

/// Where a download over FTP stands: the step that is being taken.
#[derive(Clone, Copy, Debug, PartialEq, Eq, Structural)]
pub enum FtpStage {
    Connect,
    Login,
    /// The directory of this number is being entered.
    Enter(usize),
    /// The length of the file is being asked for.
    Size,
    /// The content is being asked for.
    Retrieve,
    /// The observers are told the length.
    Announce,
    /// The next piece is being read.
    Read,
    /// The observers are given a piece of this many bytes.
    Deliver(usize),
    /// The observers are told that the download is done.
    Finish,
    /// The download is done.
    Done,
    /// The download has failed.
    Failed,
}

/// How a step went.
#[derive(Clone, Copy, Debug, PartialEq, Eq, Structural)]
pub enum FtpReply {
    /// The step was taken.
    Taken,
    /// The server told the length of the file, or that it does not know it.
    Length(Option<usize>),
    /// This many bytes were read.
    Got(usize),
    /// The step could not be taken.
    Failed,
}

/// A download over FTP under way.
#[derive(Clone, Debug)]
pub struct FtpTransfer {
    pub plan: FtpPlan,
    /// The length of the file, once the server has told it.
    pub length: Option<u64>,
    pub stage: FtpStage,
}

/// The stage behind a step that went as `reply` says, where `directories` are
/// to be entered.
pub open spec fn next_stage(stage: FtpStage, directories: nat, reply: FtpReply) -> FtpStage {
    match (stage, reply) {
        (_, FtpReply::Failed) => FtpStage::Failed,
        (FtpStage::Connect, _) => FtpStage::Login,
        (FtpStage::Login, _) => if directories > 0 {
            FtpStage::Enter(0)
        } else {
            FtpStage::Size
        },
        (FtpStage::Enter(i), _) => if i + 1 < directories {
            FtpStage::Enter((i + 1) as usize)
        } else {
            FtpStage::Size
        },
        (FtpStage::Size, _) => FtpStage::Retrieve,
        (FtpStage::Retrieve, _) => FtpStage::Announce,
        (FtpStage::Announce, _) => FtpStage::Read,
        (FtpStage::Read, FtpReply::Got(n)) => if n > 0 {
            FtpStage::Deliver(n)
        } else {
            FtpStage::Finish
        },
        (FtpStage::Deliver(_), _) => FtpStage::Read,
        _ => FtpStage::Done,
    }
}

/// The replies that can come at a stage. Only telling the observers of the
/// length and of the end cannot fail.
pub open spec fn stage_accepts(stage: FtpStage, reply: FtpReply) -> bool {
    match (stage, reply) {
        (FtpStage::Done, _) => false,
        (FtpStage::Failed, _) => false,
        (FtpStage::Announce, _) => reply is Taken,
        (FtpStage::Finish, _) => reply is Taken,
        (_, FtpReply::Failed) => true,
        (FtpStage::Size, _) => reply is Length,
        (FtpStage::Read, FtpReply::Got(n)) => n <= FTP_BUFFER,
        (FtpStage::Read, _) => false,
        _ => reply is Taken,
    }
}

impl FtpTransfer {
    /// Only directories that there are are entered, and no piece that is given
    /// to the observers is empty or larger than what was asked for.
    pub open spec fn wf(self) -> bool {
        &&& self.stage matches FtpStage::Enter(i) ==> i < self.plan.directories@.len()
        &&& self.stage matches FtpStage::Deliver(n) ==> 0 < n <= FTP_BUFFER
    }

    /// The replies that can come now.
    pub open spec fn accepts(self, reply: FtpReply) -> bool {
        stage_accepts(self.stage, reply)
    }

    /// Takes note of how a step went. What is read is given to the observers
    /// piece by piece until nothing more comes.
    pub fn advance(&mut self, reply: FtpReply)
        requires
            old(self).wf(),
            old(self).accepts(reply),
        ensures
            final(self).wf(),
            final(self).plan == old(self).plan,
            final(self).stage == next_stage(
                old(self).stage,
                old(self).plan.directories@.len(),
                reply,
            ),
            final(self).length == match reply {
                FtpReply::Length(Some(n)) => Some(n as u64),
                FtpReply::Length(None) => None,
                _ => old(self).length,
            },
    {
        if let FtpReply::Length(length) = reply {
            self.length = match length {
                Some(n) => Some(n as u64),
                None => None,
            };
        }
        let directories: usize = self.plan.directories.len();
        self.stage = match (self.stage, reply) {
            (_, FtpReply::Failed) => FtpStage::Failed,
            (FtpStage::Connect, _) => FtpStage::Login,
            (FtpStage::Login, _) => if directories > 0 {
                FtpStage::Enter(0)
            } else {
                FtpStage::Size
            },
            (FtpStage::Enter(i), _) => if i + 1 < directories {
                FtpStage::Enter(i + 1)
            } else {
                FtpStage::Size
            },
            (FtpStage::Size, _) => FtpStage::Retrieve,
            (FtpStage::Retrieve, _) => FtpStage::Announce,
            (FtpStage::Announce, _) => FtpStage::Read,
            (FtpStage::Read, FtpReply::Got(n)) => if n > 0 {
                FtpStage::Deliver(n)
            } else {
                FtpStage::Finish
            },
            (FtpStage::Deliver(_), _) => FtpStage::Read,
            _ => FtpStage::Done,
        };
    }
}

/// A download over FTP with observers of type `H`.
pub struct FtpDownload<H> {
    pub url: Address,
    pub hooks: Vec<H>,
}

/// The user that files are fetched as where an address names none.
pub open spec fn user_of(url: Address) -> Seq<char> {
    if url.username@.len() == 0 {
        "anonymous"@
    } else {
        url.username@
    }
}

/// The password that goes with it.
pub open spec fn password_of(url: Address) -> Seq<char> {
    match url.password {
        Some(password) => password@,
        None => "anonymous"@,
    }
}

/// What an address lacks for a download over FTP, if anything.
pub open spec fn lacks(url: Address) -> Option<FtpErrorKind> {
    if url.host is None {
        Some(FtpErrorKind::NoHost)
    } else if url.port is None {
        Some(FtpErrorKind::NoPort)
    } else {
        match url.path_segments {
            None => Some(FtpErrorKind::NoPathSegments),
            Some(segments) => if segments@.len() == 0 {
                Some(FtpErrorKind::EmptyPathSegments)
            } else {
                None
            },
        }
    }
}

impl<H> FtpDownload<H> {
    pub fn new(url: Address) -> (r: FtpDownload<H>)
        ensures
            r.url == url,
            r.hooks@ == Seq::<H>::empty(),
    {
        FtpDownload { url, hooks: Vec::new() }
    }

    /// Adds an observer, behind those that there are.
    pub fn events_hook(&mut self, hk: H) -> (r: &mut FtpDownload<H>)
        ensures
            r.hooks@ == old(self).hooks@.push(hk),
            r.url == old(self).url,
            *final(self) == *final(r),
    {
        self.hooks.push(hk);
        self
    }

    /// Starts the download: the address says which server to ask, as whom, and
    /// for which file in which directory.
    pub fn download(&self) -> (r: Result<FtpTransfer, FtpError>)
        ensures
            match lacks(self.url) {
                Some(kind) => r matches Err(e) && e.kind == kind && e.url@ == self.url.text@,
                None => {
                    let segments = texts(self.url.path_segments->Some_0@);
                    &&& r matches Ok(transfer)
                    &&& transfer.wf()
                    &&& transfer.stage == FtpStage::Connect
                    &&& transfer.length is None
                    &&& transfer.plan.server@ == self.url.host->Some_0@ + ":"@ + decimal(
                        self.url.port->Some_0 as nat,
                    )
                    &&& transfer.plan.username@ == user_of(self.url)
                    &&& transfer.plan.password@ == password_of(self.url)
                    &&& texts(transfer.plan.directories@) == segments.drop_last()
                    &&& transfer.plan.file@ == segments.last()
                },
            },
    {
        let host = match &self.url.host {
            Some(host) => host,
            None => return Err(self.error(FtpErrorKind::NoHost)),
        };
        let port: u16 = match self.url.port {
            Some(port) => port,
            None => return Err(self.error(FtpErrorKind::NoPort)),
        };
        let mut server = String::new();
        server.append(host.as_str());
        server.append(":");
        server.append(decimal_text(port as u64).as_str());
        assert(server@ == host@ + ":"@ + decimal(port as nat));
        let username = if self.url.username.as_str().is_empty() {
            "anonymous".to_owned()
        } else {
            self.url.username.clone()
        };
        let password = match &self.url.password {
            Some(password) => password.clone(),
            None => "anonymous".to_owned(),
        };
        let segments = match &self.url.path_segments {
            Some(segments) => segments,
            None => return Err(self.error(FtpErrorKind::NoPathSegments)),
        };
        if segments.len() == 0 {
            return Err(self.error(FtpErrorKind::EmptyPathSegments));
        }
        let last: usize = segments.len() - 1;
        let mut directories: Vec<String> = Vec::new();
        let mut i: usize = 0;
        while i < last
            invariant
                i <= last,
                last == segments@.len() - 1,
                directories@.len() == i,
                forall|j: int| 0 <= j < i ==> (#[trigger] directories@[j])@ == segments@[j]@,
            decreases last - i,
        {
            directories.push(segments[i].clone());
            i = i + 1;
        }
        let file = segments[last].clone();
        assert(texts(directories@) == texts(segments@).drop_last());
        Ok(
            FtpTransfer {
                plan: FtpPlan { server, username, password, directories, file },
                length: None,
                stage: FtpStage::Connect,
            },
        )
    }

    fn error(&self, kind: FtpErrorKind) -> (r: FtpError)
        ensures
            r.kind == kind,
            r.url@ == self.url.text@,
    {
        FtpError { kind, url: self.url.text.clone() }
    }
}

impl<H: EventsHandler> FtpDownload<H> {
    /// Hands a piece of the content to one observer after the other until one
    /// reports an error, and gives that error back. The contract speaks of the
    /// calls of `on_content` that were made.
    pub fn send_content(&mut self, contents: &[u8]) -> (r: Result<(), HookError>)
        ensures
            final(self).url == old(self).url,
            final(self).hooks@.len() == old(self).hooks@.len(),
            exists|calls: Seq<(&mut H, Result<(), HookError>)>|
                {
                    &&& #[trigger] calls.len() <= old(self).hooks@.len()
                    &&& forall|i: int|
                        #![trigger calls[i]]
                        #![trigger final(self).hooks@[i]]
                        0 <= i < calls.len() ==> {
                            &&& *calls[i].0 == old(self).hooks@[i]
                            &&& *final(calls[i].0) == final(self).hooks@[i]
                            &&& call_ensures(H::on_content, (calls[i].0, contents), calls[i].1)
                            &&& i < calls.len() - 1 ==> calls[i].1 is Ok
                        }
                    &&& forall|i: int|
                        calls.len() <= i < old(self).hooks@.len()
                            ==> #[trigger] final(self).hooks@[i] == old(self).hooks@[i]
                    &&& if calls.len() > 0 && calls.last().1 is Err {
                        r == calls.last().1
                    } else {
                        r is Ok && calls.len() == old(self).hooks@.len()
                    }
                },
    {
        send_content(&mut self.hooks, contents)
    }
}

/// The stage that `taken` steps lead to that all were taken.
pub open spec fn stage_after(directories: nat, taken: nat) -> FtpStage
    decreases taken,
{
    if taken == 0 {
        FtpStage::Connect
    } else {
        next_stage(stage_after(directories, (taken - 1) as nat), directories, FtpReply::Taken)
    }
}

/// Behind the connection and the login the directories are entered in order,
/// each once, and then the file is asked for.
pub proof fn lemma_directories_are_entered_in_order(directories: nat, taken: nat)
    requires
        directories <= usize::MAX,
        taken <= directories + 2,
    ensures
        stage_after(directories, taken) == if taken == 0 {
            FtpStage::Connect
        } else if taken == 1 {
            FtpStage::Login
        } else if taken < directories + 2 {
            FtpStage::Enter((taken - 2) as usize)
        } else {
            FtpStage::Size
        },
    decreases taken,
{
    if taken > 0 {
        lemma_directories_are_entered_in_order(directories, (taken - 1) as nat);
    }
}

/// Whether the replies can come in this order.
pub open spec fn possible_replies(
    stage: FtpStage,
    directories: nat,
    replies: Seq<FtpReply>,
) -> bool
    decreases replies.len(),
{
    replies.len() > 0 ==> stage_accepts(stage, replies[0]) && possible_replies(
        next_stage(stage, directories, replies[0]),
        directories,
        replies.skip(1),
    )
}

/// The stage behind the replies.
pub open spec fn stage_after_all(
    stage: FtpStage,
    directories: nat,
    replies: Seq<FtpReply>,
) -> FtpStage
    decreases replies.len(),
{
    if replies.len() == 0 {
        stage
    } else {
        stage_after_all(
            next_stage(stage, directories, replies[0]),
            directories,
            replies.skip(1),
        )
    }
}

proof fn lemma_last_reply(stage: FtpStage, directories: nat, replies: Seq<FtpReply>)
    requires
        replies.len() > 0,
        possible_replies(stage, directories, replies),
    ensures
        possible_replies(stage, directories, replies.drop_last()),
        stage_accepts(
            stage_after_all(stage, directories, replies.drop_last()),
            replies.last(),
        ),
        stage_after_all(stage, directories, replies) == next_stage(
            stage_after_all(stage, directories, replies.drop_last()),
            directories,
            replies.last(),
        ),
    decreases replies.len(),
{
    let next = next_stage(stage, directories, replies[0]);
    if replies.len() > 1 {
        lemma_last_reply(next, directories, replies.skip(1));
        assert(replies.skip(1).drop_last() == replies.drop_last().skip(1));
        assert(replies.drop_last()[0] == replies[0]);
        assert(replies.skip(1).last() == replies.last());
    } else {
        assert(replies.drop_last() == Seq::<FtpReply>::empty());
        assert(replies.skip(1) == Seq::<FtpReply>::empty());
        assert(stage_after_all(next, directories, replies.skip(1)) == next);
    }
}

/// Whether `pieces` are the bytes that came with the replies: as many as the
/// reply says with one that something was read.
pub open spec fn come_with(replies: Seq<FtpReply>, pieces: Seq<Seq<u8>>) -> bool {
    &&& pieces.len() == replies.len()
    &&& forall|i: int|
        0 <= i < replies.len() ==> ((#[trigger] replies[i]) matches FtpReply::Got(n) ==> n
            == pieces[i].len())
}

/// The pieces that were read, without the empty one at the end of the file.
pub open spec fn read_pieces(replies: Seq<FtpReply>, pieces: Seq<Seq<u8>>) -> Seq<Seq<u8>>
    decreases replies.len(),
{
    if replies.len() == 0 {
        Seq::empty()
    } else {
        let before = read_pieces(replies.drop_last(), pieces.drop_last());
        match replies.last() {
            FtpReply::Got(n) => if n > 0 {
                before.push(pieces.last())
            } else {
                before
            },
            _ => before,
        }
    }
}

/// The pieces that the observers took, each the one that was read last by then.
pub open spec fn given_pieces(
    directories: nat,
    replies: Seq<FtpReply>,
    pieces: Seq<Seq<u8>>,
) -> Seq<Seq<u8>>
    decreases replies.len(),
{
    if replies.len() == 0 {
        Seq::empty()
    } else {
        let before = given_pieces(directories, replies.drop_last(), pieces.drop_last());
        let stage = stage_after_all(FtpStage::Connect, directories, replies.drop_last());
        if stage is Deliver && replies.last() == FtpReply::Taken {
            before.push(read_pieces(replies.drop_last(), pieces.drop_last()).last())
        } else {
            before
        }
    }
}

/// The observers are given the pieces that are read, each once, in the order in
/// which they are read and with all of its bytes. Only the last can still be
/// missing: it is just being given, or a step failed.
pub proof fn lemma_all_that_is_read_is_given(
    directories: nat,
    replies: Seq<FtpReply>,
    pieces: Seq<Seq<u8>>,
)
    requires
        possible_replies(FtpStage::Connect, directories, replies),
        come_with(replies, pieces),
    ensures
        ({
            let read = read_pieces(replies, pieces);
            let given = given_pieces(directories, replies, pieces);
            match stage_after_all(FtpStage::Connect, directories, replies) {
                FtpStage::Deliver(n) => {
                    &&& read.len() > 0
                    &&& n == read.last().len()
                    &&& given == read.drop_last()
                },
                FtpStage::Failed => given == read || (read.len() > 0 && given
                    == read.drop_last()),
                _ => given == read,
            }
        }),
    decreases replies.len(),
{
    if replies.len() > 0 {
        lemma_last_reply(FtpStage::Connect, directories, replies);
        lemma_all_that_is_read_is_given(directories, replies.drop_last(), pieces.drop_last());
        let read = read_pieces(replies.drop_last(), pieces.drop_last());
        assert(replies[replies.len() - 1] == replies.last());
        if read.len() > 0 {
            assert(read.drop_last().push(read.last()) == read);
        }
        assert(read.push(pieces.last()).drop_last() == read);
    }
}

/// What the observers of a download over FTP are told.
pub enum FtpNotice {
    Length,
    Content,
    Finish,
}

/// What the observers are told during the replies, in order: the stages that the
/// replies lead to say it.
pub open spec fn ftp_notices(directories: nat, replies: Seq<FtpReply>) -> Seq<FtpNotice>
    decreases replies.len(),
{
    if replies.len() == 0 {
        Seq::empty()
    } else {
        let before = ftp_notices(directories, replies.drop_last());
        match stage_after_all(FtpStage::Connect, directories, replies) {
            FtpStage::Announce => before.push(FtpNotice::Length),
            FtpStage::Deliver(_) => before.push(FtpNotice::Content),
            FtpStage::Finish => before.push(FtpNotice::Finish),
            _ => before,
        }
    }
}

/// The observers are told the length once, before all content, and the end
/// once, behind all else and exactly where no step failed up to there.
pub proof fn lemma_length_first_and_finish_last(directories: nat, replies: Seq<FtpReply>)
    requires
        possible_replies(FtpStage::Connect, directories, replies),
    ensures
        ({
            let n = ftp_notices(directories, replies);
            let end = stage_after_all(FtpStage::Connect, directories, replies);
            &&& forall|i: int|
                0 <= i < n.len() ==> {
                    &&& (#[trigger] n[i] == FtpNotice::Length <==> i == 0)
                    &&& n[i] == FtpNotice::Finish ==> i == n.len() - 1
                }
            &&& (n.len() > 0 && n.last() == FtpNotice::Finish) <==> (end == FtpStage::Finish
                || end == FtpStage::Done)
        }),
{
    lemma_notices_by_stage(directories, replies);
}

proof fn lemma_notices_by_stage(directories: nat, replies: Seq<FtpReply>)
    requires
        possible_replies(FtpStage::Connect, directories, replies),
    ensures
        ({
            let n = ftp_notices(directories, replies);
            let end = stage_after_all(FtpStage::Connect, directories, replies);
            &&& forall|i: int|
                0 <= i < n.len() ==> {
                    &&& (#[trigger] n[i] == FtpNotice::Length <==> i == 0)
                    &&& n[i] == FtpNotice::Finish ==> i == n.len() - 1
                }
            &&& (n.len() > 0 && n.last() == FtpNotice::Finish) <==> (end == FtpStage::Finish
                || end == FtpStage::Done)
            &&& end is Connect || end is Login || end is Enter || end is Size || end is Retrieve
                ==> n.len() == 0
            &&& end is Announce || end is Read || end is Deliver ==> n.len() > 0
        }),
    decreases replies.len(),
{
    if replies.len() > 0 {
        lemma_last_reply(FtpStage::Connect, directories, replies);
        lemma_notices_by_stage(directories, replies.drop_last());
    }
}

/// An FTP address that was read from a text lacks nothing but a host or a path.
pub proof fn lemma_parsed_address_lacks_little(url: Address)
    requires
        url.wf(),
        url.scheme@ == "ftp"@,
    ensures
        lacks(url) != Some(FtpErrorKind::NoPort),
        lacks(url) != Some(FtpErrorKind::EmptyPathSegments),
{
}

/// Whether one call takes a download from one state to the other.
spec fn replied(t: FtpTransfer, reply: FtpReply, next: FtpTransfer) -> bool {
    &&& t.accepts(reply)
    &&& next.plan == t.plan
    &&& next.stage == next_stage(t.stage, t.plan.directories@.len(), reply)
    &&& next.length == match reply {
        FtpReply::Length(Some(n)) => Some(n as u64),
        FtpReply::Length(None) => None,
        _ => t.length,
    }
}

/// The step that a download over FTP takes once all of `replies` came, where
/// `directories` are to be entered. Behind the connection and the login come the
/// directories in order, then the length, the content and the notice of the length;
/// then pieces are read and given in turn until one is empty.
spec fn ftp_step(directories: nat, replies: Seq<FtpReply>) -> FtpStage {
    let n = replies.len();
    if n > 0 && replies.last() is Failed {
        FtpStage::Failed
    } else if n == 0 {
        FtpStage::Connect
    } else if n == 1 {
        FtpStage::Login
    } else if n < directories + 2 {
        FtpStage::Enter((n - 2) as usize)
    } else if n == directories + 2 {
        FtpStage::Size
    } else if n == directories + 3 {
        FtpStage::Retrieve
    } else if n == directories + 4 {
        FtpStage::Announce
    } else if n == directories + 5 {
        FtpStage::Read
    } else {
        match replies.last() {
            FtpReply::Got(count) => if count == 0 {
                FtpStage::Finish
            } else {
                FtpStage::Deliver(count)
            },
            _ => if replies[n - 2] == FtpReply::Got(0) {
                FtpStage::Done
            } else {
                FtpStage::Read
            },
        }
    }
}

/// Where a download over FTP stands after its first `n` calls.
proof fn lemma_ftp_up_to(states: Seq<FtpTransfer>, replies: Seq<FtpReply>, n: int)
    requires
        states.len() == replies.len() + 1,
        states[0].stage == FtpStage::Connect,
        states[0].length is None,
        forall|i: int|
            0 <= i < replies.len() ==> replied(states[i], #[trigger] replies[i], states[i + 1]),
        0 <= n <= replies.len(),
        states[0].plan.directories@.len() <= usize::MAX,
    ensures
        states[n].plan == states[0].plan,
        states[n].stage == ftp_step(states[0].plan.directories@.len(), replies.take(n)),
        forall|i: int| 0 <= i < n - 1 ==> !(#[trigger] replies[i] is Failed),
        ({
            let d = states[0].plan.directories@.len() as int;
            &&& n <= d + 2 ==> states[n].length is None
            &&& n > d + 2 ==> match replies[d + 2] {
                FtpReply::Length(Some(length)) => states[n].length == Some(length as u64),
                _ => states[n].length is None,
            }
            &&& forall|i: int|
                d + 5 <= i < n - 1 && #[trigger] replies[i] == FtpReply::Got(0) ==> i == n - 2
        }),
    decreases n,
{
    if n > 0 {
        lemma_ftp_up_to(states, replies, n - 1);
        assert(replied(states[n - 1], replies[n - 1], states[n]));
        let before = replies.take(n - 1);
        let all = replies.take(n);
        assert(all.last() == replies[n - 1]);
        if n > 1 {
            assert(before.last() == replies[n - 2]);
            assert(all[n - 2] == replies[n - 2]);
        }
        if n > 2 {
            assert(before[n - 3] == replies[n - 3]);
        }
    } else {
        assert(replies.take(0).len() == 0);
    }
}

/// The step that a download over FTP takes follows from the replies that came up to
/// there. A step that fails ends it as failed, whichever it is; it is done only
/// where none failed and the file was read to its end. The law is about the calls of
/// [`FtpTransfer::advance`] that follow one another from [`FtpDownload::download`]
/// on.
pub proof fn lemma_what_is_done_over_ftp<H>(
    d: FtpDownload<H>,
    states: Seq<FtpTransfer>,
    replies: Seq<FtpReply>,
)
    requires
        states.len() == replies.len() + 1,
        call_ensures(FtpDownload::<H>::download, (&d,), Ok::<FtpTransfer, FtpError>(states[0])),
        forall|i: int|
            #![trigger replies[i]]
            0 <= i < replies.len() ==> {
                &&& states[i].accepts(replies[i])
                &&& exists|t: &mut FtpTransfer|
                    *t == states[i] && *final(t) == states[i + 1] && #[trigger] call_ensures(
                        FtpTransfer::advance,
                        (t, replies[i]),
                        (),
                    )
            },
    ensures
        ({
            let directories = states[0].plan.directories@.len();
            let n = replies.len();
            let end = states.last().stage;
            &&& n > 0 && replies.last() is Failed <==> end == FtpStage::Failed
            &&& end == FtpStage::Finish || end == FtpStage::Done ==> forall|i: int|
                0 <= i < n ==> !(#[trigger] replies[i] is Failed)
            &&& end != FtpStage::Failed ==> {
                &&& n == 0 ==> end == FtpStage::Connect
                &&& n == 1 ==> end == FtpStage::Login
                &&& 2 <= n < directories + 2 ==> end == FtpStage::Enter((n - 2) as usize)
                &&& n == directories + 2 ==> end == FtpStage::Size
                &&& n == directories + 3 ==> end == FtpStage::Retrieve
                &&& n == directories + 4 ==> end == FtpStage::Announce
                &&& n == directories + 5 ==> end == FtpStage::Read
                &&& n > directories + 5 ==> match replies.last() {
                    FtpReply::Got(count) => end == if count == 0 {
                        FtpStage::Finish
                    } else {
                        FtpStage::Deliver(count)
                    },
                    _ => end == if replies[n - 2] == FtpReply::Got(0) {
                        FtpStage::Done
                    } else {
                        FtpStage::Read
                    },
                }
            }
            &&& end == FtpStage::Finish ==> n > directories + 5 && replies.last()
                == FtpReply::Got(0)
            &&& end == FtpStage::Done ==> n > directories + 6 && replies.last()
                == FtpReply::Taken && replies[n - 2] == FtpReply::Got(0)
        }),
{
    assert forall|i: int| 0 <= i < replies.len() implies replied(
        states[i],
        #[trigger] replies[i],
        states[i + 1],
    ) by {
        let t = choose|t: &mut FtpTransfer|
            *t == states[i] && *final(t) == states[i + 1] && #[trigger] call_ensures(
                FtpTransfer::advance,
                (t, replies[i]),
                (),
            );
        assert(call_ensures(FtpTransfer::advance, (t, replies[i]), ()));
    }
    lemma_vec_len(states[0].plan.directories);
    let n = replies.len() as int;
    lemma_ftp_up_to(states, replies, n);
    assert(replies.take(n) == replies);
    if n > 0 {
        lemma_ftp_up_to(states, replies, n - 1);
        assert(replied(states[n - 1], replies[n - 1], states[n]));
    }
}

proof fn lemma_vec_len(v: Vec<String>)
    ensures
        v@.len() <= usize::MAX,
{
    vstd::std_specs::vec::axiom_spec_len(&v);
}

/// The length that a download over FTP holds is the one that the server replied,
/// and none before it replied or where it does not know. Where the file is fetched
/// from stays as it was.
pub proof fn lemma_length_is_what_the_server_replied<H>(
    d: FtpDownload<H>,
    states: Seq<FtpTransfer>,
    replies: Seq<FtpReply>,
)
    requires
        states.len() == replies.len() + 1,
        call_ensures(FtpDownload::<H>::download, (&d,), Ok::<FtpTransfer, FtpError>(states[0])),
        forall|i: int|
            #![trigger replies[i]]
            0 <= i < replies.len() ==> {
                &&& states[i].accepts(replies[i])
                &&& exists|t: &mut FtpTransfer|
                    *t == states[i] && *final(t) == states[i + 1] && #[trigger] call_ensures(
                        FtpTransfer::advance,
                        (t, replies[i]),
                        (),
                    )
            },
    ensures
        states.last().plan == states[0].plan,
        states.last().length == if replies.len() > states[0].plan.directories@.len() + 2 {
            match replies[states[0].plan.directories@.len() as int + 2] {
                FtpReply::Length(Some(length)) => Some(length as u64),
                _ => None,
            }
        } else {
            None
        },
{
    assert forall|i: int| 0 <= i < replies.len() implies replied(
        states[i],
        #[trigger] replies[i],
        states[i + 1],
    ) by {
        let t = choose|t: &mut FtpTransfer|
            *t == states[i] && *final(t) == states[i + 1] && #[trigger] call_ensures(
                FtpTransfer::advance,
                (t, replies[i]),
                (),
            );
        assert(call_ensures(FtpTransfer::advance, (t, replies[i]), ()));
    }
    lemma_vec_len(states[0].plan.directories);
    lemma_ftp_up_to(states, replies, replies.len() as int);
}

/// Whatever can come of a step of a download over FTP can be taken note of.
pub proof fn lemma_ftp_takes_every_reply<H>(
    d: FtpDownload<H>,
    states: Seq<FtpTransfer>,
    replies: Seq<FtpReply>,
    reply: FtpReply,
)
    requires
        states.len() == replies.len() + 1,
        call_ensures(FtpDownload::<H>::download, (&d,), Ok::<FtpTransfer, FtpError>(states[0])),
        forall|i: int|
            #![trigger replies[i]]
            0 <= i < replies.len() ==> {
                &&& states[i].accepts(replies[i])
                &&& exists|t: &mut FtpTransfer|
                    *t == states[i] && *final(t) == states[i + 1] && #[trigger] call_ensures(
                        FtpTransfer::advance,
                        (t, replies[i]),
                        (),
                    )
            },
        match states.last().stage {
            FtpStage::Connect
            | FtpStage::Login
            | FtpStage::Enter(_)
            | FtpStage::Retrieve
            | FtpStage::Deliver(_) => reply is Taken || reply is Failed,
            FtpStage::Size => reply is Length || reply is Failed,
            FtpStage::Read => reply is Failed || (reply matches FtpReply::Got(n) && n <= 2048),
            FtpStage::Announce | FtpStage::Finish => reply is Taken,
            FtpStage::Done | FtpStage::Failed => false,
        },
    ensures
        forall|t: &mut FtpTransfer|
            *t == states.last() ==> #[trigger] call_requires(FtpTransfer::advance, (t, reply)),
{
    assert forall|i: int| 0 <= i < replies.len() implies replied(
        states[i],
        #[trigger] replies[i],
        states[i + 1],
    ) by {
        let t = choose|t: &mut FtpTransfer|
            *t == states[i] && *final(t) == states[i + 1] && #[trigger] call_ensures(
                FtpTransfer::advance,
                (t, replies[i]),
                (),
            );
        assert(call_ensures(FtpTransfer::advance, (t, replies[i]), ()));
    }
    lemma_vec_len(states[0].plan.directories);
    let n = replies.len() as int;
    lemma_ftp_up_to(states, replies, n);
    assert(replies.take(n) == replies);
    lemma_ftp_wf(states, replies, n);
}

proof fn lemma_ftp_wf(states: Seq<FtpTransfer>, replies: Seq<FtpReply>, n: int)
    requires
        states.len() == replies.len() + 1,
        states[0].wf(),
        forall|i: int|
            0 <= i < replies.len() ==> replied(states[i], #[trigger] replies[i], states[i + 1]),
        0 <= n <= replies.len(),
        states[0].plan.directories@.len() <= usize::MAX,
    ensures
        states[n].wf(),
        states[n].plan == states[0].plan,
    decreases n,
{
    if n > 0 {
        lemma_ftp_wf(states, replies, n - 1);
        assert(replied(states[n - 1], replies[n - 1], states[n]));
    }
}

/// What a download over FTP is made of comes from the address: the host and the
/// port, the user and the password that it names or else `anonymous`, and its path,
/// whose last segment is the file and whose others are the directories, in order.
pub proof fn lemma_ftp_download_goes_by_the_address<H>(d: FtpDownload<H>, t: FtpTransfer)
    requires
        call_ensures(FtpDownload::<H>::download, (&d,), Ok::<FtpTransfer, FtpError>(t)),
    ensures
        d.url.host is Some,
        d.url.port is Some,
        d.url.path_segments is Some,
        ({
            let host = d.url.host->Some_0@;
            let segments = d.url.path_segments->Some_0@;
            let server = t.plan.server@;
            &&& server.len() > host.len()
            &&& server.take(host.len() as int) == host
            &&& server[host.len() as int] == ':'
            &&& number_of(server.skip(host.len() as int + 1), u16::MAX as int) == Ok::<
                int,
                NumberError,
            >(d.url.port->Some_0 as int)
            &&& segments.len() > 0
            &&& t.plan.directories@.len() == segments.len() - 1
            &&& forall|i: int|
                0 <= i < segments.len() - 1 ==> (#[trigger] t.plan.directories@[i])@
                    == segments[i]@
            &&& t.plan.file@ == segments.last()@
        }),
        d.url.username@.len() > 0 ==> t.plan.username@ == d.url.username@,
        d.url.username@.len() == 0 ==> t.plan.username@ == "anonymous"@,
        d.url.password matches Some(password) ==> t.plan.password@ == password@,
        d.url.password is None ==> t.plan.password@ == "anonymous"@,
        t.stage == FtpStage::Connect,
        t.length is None,
{
    reveal_strlit(":");
    let host = d.url.host->Some_0@;
    let segments = d.url.path_segments->Some_0@;
    let server = t.plan.server@;
    let port = d.url.port->Some_0;
    lemma_decimal_is_read_back(port as nat, u16::MAX as int);
    assert(server.take(host.len() as int) == host);
    assert(server.skip(host.len() as int + 1) == decimal(port as nat));
    assert(texts(segments).len() == segments.len());
    assert(texts(t.plan.directories@).len() == t.plan.directories@.len());
    assert forall|i: int| 0 <= i < segments.len() - 1 implies (#[trigger] t.plan.directories@[i])@
        == segments[i]@ by {
        assert(texts(t.plan.directories@)[i] == t.plan.directories@[i]@);
        assert(texts(segments).drop_last()[i] == segments[i]@);
    }
}

/// A download over FTP needs a host, a port and a path, and the error names the
/// first of them that the address lacks, with the address; one that has them is
/// always begun.
pub proof fn lemma_what_ftp_needs<H>(d: FtpDownload<H>, r: Result<FtpTransfer, FtpError>)
    requires
        call_ensures(FtpDownload::<H>::download, (&d,), r),
    ensures
        r is Ok <==> d.url.host is Some && d.url.port is Some && d.url.path_segments is Some
            && d.url.path_segments->Some_0@.len() > 0,
        r matches Err(e) ==> e.url@ == d.url.text@,
        r matches Err(e) ==> (e.kind is NoHost <==> d.url.host is None),
        r matches Err(e) ==> (e.kind is NoPort <==> d.url.host is Some && d.url.port is None),
        r matches Err(e) ==> (e.kind is NoPathSegments <==> d.url.host is Some && d.url.port is Some
            && d.url.path_segments is None),
{
}

/// The message of an error ends with the address, and says by what it starts with
/// which part is lacking.
pub proof fn lemma_ftp_message(e: FtpError, message: String)
    requires
        call_ensures(FtpError::message, (&e,), message),
    ensures
        ({
            let start = match e.kind {
                FtpErrorKind::NoHost => "failed to parse hostname from url: "@,
                FtpErrorKind::NoPort => "failed to parse port from url: "@,
                FtpErrorKind::NoPathSegments => "failed to get url path segments: "@,
                FtpErrorKind::EmptyPathSegments => "got empty path segments from url: "@,
            };
            &&& message@.take(start.len() as int) == start
            &&& message@.skip(start.len() as int) == e.url@
        }),
{
    let start = e.kind.prefix();
    assert(message@.take(start.len() as int) == start);
    assert(message@.skip(start.len() as int) == e.url@);
}

/// A download over FTP begins with no observer; one that is added is the last, and
/// what comes back is the download itself.
pub proof fn lemma_ftp_observers<H>(url: Address, d: FtpDownload<H>, hk: H)
    requires
        call_ensures(FtpDownload::<H>::new, (url,), d),
    ensures
        d.url == url,
        d.hooks@.len() == 0,
        forall|f: &mut FtpDownload<H>, r: &mut FtpDownload<H>|
            #[trigger] call_ensures(FtpDownload::<H>::events_hook, (f, hk), r) ==> {
                &&& r.hooks@.len() == f.hooks@.len() + 1
                &&& r.hooks@.last() == hk
                &&& r.hooks@.drop_last() == f.hooks@
                &&& r.url == f.url
                &&& *final(f) == *final(r)
            },
{
    assert forall|f: &mut FtpDownload<H>, r: &mut FtpDownload<H>|
        #[trigger] call_ensures(FtpDownload::<H>::events_hook, (f, hk), r) implies r.hooks@.len()
        == f.hooks@.len() + 1 && r.hooks@.last() == hk && r.hooks@.drop_last() == f.hooks@ by {
        assert(f.hooks@.push(hk).drop_last() == f.hooks@);
    }
}

/// Each observer of a download in turn is given the whole piece until one reports an
/// error, which is then the result. The address stays as it was.
pub proof fn lemma_ftp_gives_content_in_order<H: EventsHandler>(
    contents: &[u8],
    told: spec_fn(H) -> (H, Result<(), HookError>),
    r: Result<(), HookError>,
)
    requires
        forall|h: &mut H, done: Result<(), HookError>|
            #[trigger] call_ensures(H::on_content, (h, contents), done) ==> (
                *final(h),
                done,
            ) == told(*h),
    ensures
        forall|d: &mut FtpDownload<H>|
            #[trigger] call_ensures(FtpDownload::<H>::send_content, (d, contents), r) ==> {
                let (_, after, reported) = in_turn_until_error(
                    |_s: (), h: H| ((), told(h).0, told(h).1),
                    (),
                    d.hooks@,
                );
                &&& final(d).hooks@ == after
                &&& reported is Err ==> r == reported
                &&& reported is Ok ==> r is Ok
                &&& final(d).url == d.url
            },
{
    let with_state = |_s: (), h: H| ((), told(h).0, told(h).1);
    assert forall|d: &mut FtpDownload<H>|
        #[trigger] call_ensures(FtpDownload::<H>::send_content, (d, contents), r) implies {
        let (_, after, reported) = in_turn_until_error(with_state, (), d.hooks@);
        &&& final(d).hooks@ == after
        &&& reported is Err ==> r == reported
        &&& reported is Ok ==> r is Ok
        &&& final(d).url == d.url
    } by {
        let calls = choose|calls: Seq<(&mut H, Result<(), HookError>)>|
            {
                &&& #[trigger] calls.len() <= d.hooks@.len()
                &&& forall|i: int|
                    #![trigger calls[i]]
                    #![trigger final(d).hooks@[i]]
                    0 <= i < calls.len() ==> {
                        &&& *calls[i].0 == d.hooks@[i]
                        &&& *final(calls[i].0) == final(d).hooks@[i]
                        &&& call_ensures(H::on_content, (calls[i].0, contents), calls[i].1)
                        &&& i < calls.len() - 1 ==> calls[i].1 is Ok
                    }
                &&& forall|i: int|
                    calls.len() <= i < d.hooks@.len() ==> #[trigger] final(d).hooks@[i]
                        == d.hooks@[i]
                &&& if calls.len() > 0 && calls.last().1 is Err {
                    r == calls.last().1
                } else {
                    r is Ok && calls.len() == d.hooks@.len()
                }
            };
        let n = d.hooks@.len() as int;
        let results = Seq::new(calls.len(), |i: int| calls[i].1);
        let states = Seq::new(calls.len() + 1, |i: int| ());
        assert forall|i: int| 0 <= i < results.len() implies (
            states[i + 1],
            #[trigger] final(d).hooks@[i],
            results[i],
        ) == with_state(states[i], d.hooks@[i]) by {
            let call = calls[i];
            assert(call_ensures(H::on_content, (call.0, contents), call.1));
        }
        assert forall|i: int| 0 <= i < results.len() - 1 implies #[trigger] results[i] is Ok by {
            assert(calls[i].1 is Ok);
        }
        lemma_in_turn_until_error(with_state, states, results, d.hooks@, final(d).hooks@, n);
        assert(d.hooks@.take(n) == d.hooks@);
        assert(final(d).hooks@.take(n) == final(d).hooks@);
    }
}

} // verus!
