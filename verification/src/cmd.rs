//! The command line: from the arguments to the download.
use reqwest::header::{HeaderMap, HeaderValue};
use vstd::prelude::*;

use crate::address::{url_host, url_password, url_port, url_scheme, url_text, url_username};
use crate::address::{Address, AddressError};
use crate::headers::{header_entries, headers_get, is_visible, length_of, parse_length};
use crate::headers::{is_visible_byte, lemma_length_is_read_back, lemma_length_needs_digits};
use crate::headers::LengthError;
use crate::http::Config;
use crate::numbers::{decimal, lemma_decimal_is_read_back, number_of, parse_number, NumberError};

verus! {

/// The time limit of a request, in seconds, where none is asked for.
pub const DEFAULT_TIMEOUT: u64 = 30;

/// The largest number of connections at one time, where none is asked for.
pub const DEFAULT_CONNECTIONS: usize = 8;

/// The number of bytes of a range.
pub const CHUNK_SIZE: u64 = 1_024_000;

/// The number of ranges that were fetched again beyond which the next failure
/// gives the download up: failed ranges are fetched again one time more than this
/// in all.
pub const MAX_RETRIES: u64 = 100;

/// The arguments of a run.
#[derive(Clone, Debug)]
pub struct Args {
    /// The version of the program.
    pub version: String,
    pub url: Option<String>,
    /// Do not print anything.
    pub quiet: bool,
    /// Resume a download.
    pub resume: bool,
    /// Fetch from start to end.
    pub singlethread: bool,
    /// Print the headers of the server only.
    pub headers: bool,
    /// The file to write to.
    pub file: Option<String>,
    /// What to call oneself.
    pub agent: Option<String>,
    /// The time limit, in seconds.
    pub seconds: Option<String>,
    /// The largest number of connections.
    pub num_connections: Option<String>,
}

/// Why a run fails before anything is downloaded.
#[derive(Clone, Debug)]
pub enum CmdError {
    /// There is no address.
    MissingUrl,
    /// The address is none.
    InvalidUrl(AddressError),
    /// The time limit is not a number.
    InvalidTimeout(NumberError),
    /// The number of connections is not a number.
    InvalidConnections(NumberError),
    /// The length that the server tells is not text.
    InvalidLength,
    /// Files cannot be fetched by this scheme.
    UnsupportedScheme(String),
}

impl CmdError {
    /// The message of an error that is not about a number or a header.
    pub fn message(&self) -> (r: Option<String>)
        ensures
            match *self {
                CmdError::MissingUrl => r matches Some(text) && text@ == "missing URL argument"@,
                CmdError::InvalidUrl(e) => r matches Some(text) && text@ == e.message@,
                CmdError::UnsupportedScheme(scheme) => r matches Some(text) && text@
                    == "unsupported url scheme '"@ + scheme@ + "'"@,
                _ => r is None,
            },
    {
        match self {
            CmdError::MissingUrl => Some("missing URL argument".to_owned()),
            CmdError::InvalidUrl(e) => Some(e.message.clone()),
            CmdError::UnsupportedScheme(scheme) => {
                let mut text = String::new();
                text.append("unsupported url scheme '");
                text.append(scheme.as_str());
                text.append("'");
                assert(text@ == "unsupported url scheme '"@ + scheme@ + "'"@);
                Some(text)
            },
            _ => None,
        }
    }
}

/// What a run is to do.
#[derive(Clone, Debug)]
pub struct Settings {
    pub url: Address,
    pub quiet_mode: bool,
    pub file_name: Option<String>,
    pub resume_download: bool,
    pub concurrent_download: bool,
    pub show_headers: bool,
    pub user_agent: String,
    pub timeout: u64,
    pub num_workers: usize,
}

/// What is done once the server has answered.
#[derive(Clone, Copy, Debug, PartialEq, Eq, Structural)]
pub enum NextStep {
    /// Print the headers of the server, and stop.
    PrintHeaders,
    /// Go on with the download of this many bytes, or of an unknown number
    /// where this is zero.
    Download(u64),
}

/// The protocol that a file is fetched by.
#[derive(Clone, Copy, Debug, PartialEq, Eq, Structural)]
pub enum Route {
    Ftp,
    Http,
}

/// The number that an argument asks for, or `default` where there is none.
pub open spec fn number_or(argument: Option<String>, default: int, max: int) -> Result<
    int,
    NumberError,
> {
    match argument {
        Some(text) => number_of(text@, max),
        None => Ok(default),
    }
}

/// The name that a program of this version calls itself by.
pub open spec fn agent_or(agent: Option<String>, version: String) -> Seq<char> {
    match agent {
        Some(agent) => agent@,
        None => "Duma/"@ + version@,
    }
}

fn number_argument(argument: &Option<String>, default: u64, max: u64) -> (r: Result<
    u64,
    NumberError,
>)
    ensures
        match number_or(*argument, default as int, max as int) {
            Ok(n) => r is Ok && r->Ok_0 == n,
            Err(e) => r == Err::<u64, NumberError>(e),
        },
{
    match argument {
        Some(text) => parse_number(text.as_str(), max),
        None => Ok(default),
    }
}

/// Reads the arguments of a run. The first argument that cannot be read, in the
/// order address, time limit, connections, decides the error.
pub fn run(args: &Args) -> (r: Result<Settings, CmdError>)
    ensures
        match r {
            Err(CmdError::MissingUrl) => args.url is None,
            Err(CmdError::InvalidUrl(e)) => {
                &&& args.url matches Some(url)
                &&& url_text(url@) == Err::<Seq<char>, Seq<char>>(e.message@)
            },
            Err(CmdError::InvalidTimeout(e)) => {
                &&& args.url matches Some(url)
                &&& url_text(url@) is Ok
                &&& number_or(args.seconds, DEFAULT_TIMEOUT as int, u64::MAX as int)
                    == Err::<int, NumberError>(e)
            },
            Err(CmdError::InvalidConnections(e)) => {
                &&& args.url matches Some(url)
                &&& url_text(url@) is Ok
                &&& number_or(args.seconds, DEFAULT_TIMEOUT as int, u64::MAX as int) is Ok
                &&& number_or(
                    args.num_connections,
                    DEFAULT_CONNECTIONS as int,
                    usize::MAX as int,
                ) == Err::<int, NumberError>(e)
            },
            Err(_) => false,
            Ok(settings) => {
                &&& args.url matches Some(url)
                &&& settings.url.is_parsed_from(url@)
                &&& settings.url.wf()
                &&& number_or(args.seconds, DEFAULT_TIMEOUT as int, u64::MAX as int)
                    == Ok::<int, NumberError>(settings.timeout as int)
                &&& number_or(
                    args.num_connections,
                    DEFAULT_CONNECTIONS as int,
                    usize::MAX as int,
                ) == Ok::<int, NumberError>(settings.num_workers as int)
                &&& settings.quiet_mode == args.quiet
                &&& settings.file_name == args.file
                &&& settings.resume_download == args.resume
                &&& settings.concurrent_download == !args.singlethread
                &&& settings.show_headers == args.headers
                &&& settings.user_agent@ == agent_or(args.agent, args.version)
            },
        },
{
    let url = match &args.url {
        None => return Err(CmdError::MissingUrl),
        Some(text) => match Address::parse(text.as_str()) {
            Err(e) => return Err(CmdError::InvalidUrl(e)),
            Ok(url) => url,
        },
    };
    let user_agent = match &args.agent {
        Some(agent) => agent.clone(),
        None => {
            let mut agent = String::new();
            agent.append("Duma/");
            agent.append(args.version.as_str());
            assert(agent@ == "Duma/"@ + args.version@);
            agent
        },
    };
    let timeout: u64 = match number_argument(&args.seconds, DEFAULT_TIMEOUT, u64::MAX) {
        Err(e) => return Err(CmdError::InvalidTimeout(e)),
        Ok(timeout) => timeout,
    };
    let num_workers: usize = match number_argument(
        &args.num_connections,
        DEFAULT_CONNECTIONS as u64,
        usize::MAX as u64,
    ) {
        Err(e) => return Err(CmdError::InvalidConnections(e)),
        Ok(num_workers) => num_workers as usize,
    };
    let file_name = match &args.file {
        Some(file) => Some(file.clone()),
        None => None,
    };
    Ok(
        Settings {
            url,
            quiet_mode: args.quiet,
            file_name,
            resume_download: args.resume,
            concurrent_download: !args.singlethread,
            show_headers: args.headers,
            user_agent,
            timeout,
            num_workers,
        },
    )
}

/// The length that a `Content-Length` header tells; zero where there is none or
/// where it is not a number.
pub open spec fn told_length(entries: Map<Seq<char>, Seq<Seq<u8>>>) -> int {
    if entries.contains_key("content-length"@) {
        match length_of(entries["content-length"@][0]) {
            Ok(n) => n,
            Err(_) => 0,
        }
    } else {
        0
    }
}

/// The name of the file that the state of a download to `file` is kept in.
pub fn state_file_name(file: &str) -> (r: String)
    ensures
        r@ == file@ + ".st"@,
{
    let mut name = String::new();
    name.append(file);
    name.append(".st");
    assert(name@ == file@ + ".st"@);
    name
}

impl Settings {
    /// Tells whether the run says anything of how it goes: log lines, the
    /// progress of the download and a last line. A quiet run that succeeds
    /// writes nothing but the headers, where they were asked for.
    pub fn logs(&self) -> (r: bool)
        ensures
            r == !self.quiet_mode,
    {
        !self.quiet_mode
    }

    /// Decides what to do with the headers that the server answered with.
    pub fn after_headers(&self, headers: &HeaderMap<HeaderValue>) -> (r: Result<
        NextStep,
        CmdError,
    >)
        ensures
            ({
                let entries = header_entries(*headers);
                if self.show_headers {
                    r matches Ok(step) && step == NextStep::PrintHeaders
                } else if entries.contains_key("content-length"@) && !is_visible(
                    entries["content-length"@][0],
                ) {
                    r matches Err(CmdError::InvalidLength)
                } else {
                    &&& r matches Ok(NextStep::Download(ct_len))
                    &&& ct_len == told_length(entries)
                }
            }),
    {
        proof {
            reveal_strlit("content-length");
        }
        if self.show_headers {
            return Ok(NextStep::PrintHeaders);
        }
        match headers_get(headers, "content-length") {
            None => Ok(NextStep::Download(0)),
            Some(value) => match parse_length(value.as_slice()) {
                Ok(n) => Ok(NextStep::Download(n)),
                Err(LengthError::NotText) => Err(CmdError::InvalidLength),
                Err(LengthError::NotNumber(_)) => Ok(NextStep::Download(0)),
            },
        }
    }

    /// Whether the ranges that an earlier download left are fetched: that
    /// download is to be resumed in ranges, it left its state, and the length
    /// of the content is known.
    pub open spec fn resumes(self, state_file_exists: bool, ct_len: u64) -> bool {
        state_file_exists && self.resume_download && self.concurrent_download && ct_len != 0
    }

    /// Tells whether the ranges that an earlier download left are to be looked
    /// up.
    pub fn resumes_chunks(&self, state_file_exists: bool, ct_len: u64) -> (r: bool)
        ensures
            r == self.resumes(state_file_exists, ct_len),
    {
        state_file_exists && self.resume_download && self.concurrent_download && ct_len != 0
    }

    /// The configuration of the download to `file` of `ct_len` bytes, by
    /// requests with these headers. What an earlier download left, the ranges
    /// that it did not fetch and the number of bytes that it did, counts only
    /// where it is resumed.
    pub fn config(
        &self,
        file: String,
        headers: HeaderMap<HeaderValue>,
        state_file_exists: bool,
        ct_len: u64,
        left_offsets: Option<Vec<(u64, u64)>>,
        bytes_on_disk: Option<u64>,
    ) -> (r: Config)
        ensures
            r.user_agent@ == self.user_agent@,
            r.resume == self.resume_download,
            r.headers == headers,
            r.file == file,
            r.timeout == self.timeout,
            r.concurrent == self.concurrent_download,
            r.max_retries == MAX_RETRIES,
            r.num_workers == self.num_workers,
            r.bytes_on_disk == if self.resume_download {
                bytes_on_disk
            } else {
                None
            },
            r.chunk_offsets == if self.resumes(state_file_exists, ct_len) {
                left_offsets
            } else {
                None
            },
            r.chunk_size == CHUNK_SIZE,
            r.quiet_mode == self.quiet_mode,
    {
        let chunk_offsets = if self.resumes_chunks(state_file_exists, ct_len) {
            left_offsets
        } else {
            None
        };
        let bytes_on_disk: Option<u64> = if self.resume_download {
            bytes_on_disk
        } else {
            None
        };
        Config {
            user_agent: self.user_agent.clone(),
            resume: self.resume_download,
            headers,
            file,
            timeout: self.timeout,
            concurrent: self.concurrent_download,
            max_retries: MAX_RETRIES,
            num_workers: self.num_workers,
            bytes_on_disk,
            chunk_offsets,
            chunk_size: CHUNK_SIZE,
            quiet_mode: self.quiet_mode,
        }
    }

    /// The protocol by which the file is fetched.
    pub fn route(&self) -> (r: Result<Route, CmdError>)
        ensures
            if self.url.scheme@ == "ftp"@ {
                r matches Ok(Route::Ftp)
            } else if self.url.scheme@ == "http"@ || self.url.scheme@ == "https"@ {
                r matches Ok(Route::Http)
            } else {
                r matches Err(CmdError::UnsupportedScheme(scheme)) && scheme@ == self.url.scheme@
            },
    {
        if same_text(self.url.scheme.as_str(), "ftp") {
            Ok(Route::Ftp)
        } else if same_text(self.url.scheme.as_str(), "http") || same_text(
            self.url.scheme.as_str(),
            "https",
        ) {
            Ok(Route::Http)
        } else {
            Err(CmdError::UnsupportedScheme(self.url.scheme.clone()))
        }
    }
}

fn same_text(a: &str, b: &str) -> (r: bool)
    ensures
        r == (a@ == b@),
{
    a.to_owned() == b.to_owned()
}

/// The limits of a run are the numbers that are asked for, however large, as far as
/// they fit. Thirty seconds and eight connections count only where none is asked
/// for.
pub proof fn lemma_limits_are_those_asked_for(args: Args, settings: Settings, n: nat)
    requires
        call_ensures(run, (&args,), Ok::<Settings, CmdError>(settings)),
    ensures
        args.seconds is None ==> settings.timeout == 30,
        args.seconds matches Some(text) && text@ == decimal(n) && n <= u64::MAX
            ==> settings.timeout == n,
        args.num_connections is None ==> settings.num_workers == 8,
        args.num_connections matches Some(text) && text@ == decimal(n) && n <= usize::MAX
            ==> settings.num_workers == n,
{
    if n <= u64::MAX {
        lemma_decimal_is_read_back(n, u64::MAX as int);
    }
    if n <= usize::MAX {
        lemma_decimal_is_read_back(n, usize::MAX as int);
    }
}

/// A limit that is not written as plain digits may be written in any other way that
/// a number is read from, and then is that number.
pub proof fn lemma_limits_are_read_as_numbers(
    args: Args,
    settings: Settings,
    text: &str,
    number: Result<u64, NumberError>,
)
    requires
        call_ensures(run, (&args,), Ok::<Settings, CmdError>(settings)),
    ensures
        args.seconds matches Some(seconds) && seconds@ == text@ && call_ensures(
            parse_number,
            (text, u64::MAX),
            number,
        ) ==> number == Ok::<u64, NumberError>(settings.timeout),
        args.num_connections matches Some(connections) && connections@ == text@ && call_ensures(
            parse_number,
            (text, usize::MAX as u64),
            number,
        ) ==> number == Ok::<u64, NumberError>(settings.num_workers as u64),
{
}

/// A run whose address is one, and whose limits are numbers that fit or are not
/// asked for, starts.
pub proof fn lemma_run_starts(
    args: Args,
    r: Result<Settings, CmdError>,
    seconds: nat,
    connections: nat,
)
    requires
        call_ensures(run, (&args,), r),
        args.url matches Some(url) && url_text(url@) is Ok,
        args.seconds matches Some(text) ==> text@ == decimal(seconds) && seconds <= u64::MAX,
        args.num_connections matches Some(text) ==> text@ == decimal(connections) && connections
            <= usize::MAX,
    ensures
        r is Ok,
{
    if seconds <= u64::MAX {
        lemma_decimal_is_read_back(seconds, u64::MAX as int);
    }
    if connections <= usize::MAX {
        lemma_decimal_is_read_back(connections, usize::MAX as int);
    }
}

/// A run does not start without an address, with a text that is none, or with a
/// limit that is no number, and says which of these it is; the first of them counts.
pub proof fn lemma_run_does_not_start(
    args: Args,
    r: Result<Settings, CmdError>,
    seconds: &str,
    timeout: Result<u64, NumberError>,
    connections: &str,
    workers: Result<u64, NumberError>,
)
    requires
        call_ensures(run, (&args,), r),
        call_ensures(parse_number, (seconds, u64::MAX), timeout),
        call_ensures(parse_number, (connections, usize::MAX as u64), workers),
        args.seconds matches Some(text) ==> text@ == seconds@,
        args.num_connections matches Some(text) ==> text@ == connections@,
    ensures
        match args.url {
            None => r == Err::<Settings, CmdError>(CmdError::MissingUrl),
            Some(url) => match url_text(url@) {
                Err(message) => r matches Err(CmdError::InvalidUrl(e)) && e.message@ == message,
                Ok(_) => if args.seconds is Some && timeout is Err {
                    r == Err::<Settings, CmdError>(CmdError::InvalidTimeout(timeout->Err_0))
                } else if args.num_connections is Some && workers is Err {
                    r == Err::<Settings, CmdError>(CmdError::InvalidConnections(workers->Err_0))
                } else {
                    r is Ok
                },
            },
        },
{
}

/// A run goes to the address that its text is, and does what its flags say: each of
/// them decides one thing, and nothing else decides it.
pub proof fn lemma_run_does_what_is_asked(args: Args, settings: Settings)
    requires
        call_ensures(run, (&args,), Ok::<Settings, CmdError>(settings)),
    ensures
        args.url is Some,
        url_text(args.url->Some_0@) == Ok::<Seq<char>, Seq<char>>(settings.url.text@),
        settings.url.scheme@ == url_scheme(args.url->Some_0@),
        settings.url.username@ == url_username(args.url->Some_0@),
        settings.url.port == url_port(args.url->Some_0@),
        match settings.url.password {
            Some(password) => url_password(args.url->Some_0@) == Some(password@),
            None => url_password(args.url->Some_0@) is None,
        },
        match settings.url.host {
            Some(host) => url_host(args.url->Some_0@) == Some(host@),
            None => url_host(args.url->Some_0@) is None,
        },
        settings.quiet_mode <==> args.quiet,
        settings.resume_download <==> args.resume,
        settings.concurrent_download <==> !args.singlethread,
        settings.show_headers <==> args.headers,
        settings.file_name == args.file,
        args.agent matches Some(agent) ==> settings.user_agent@ == agent@,
        args.agent is None ==> settings.user_agent@.take(5) == "Duma/"@
            && settings.user_agent@.skip(5) == args.version@,
{
    reveal_strlit("Duma/");
    if args.agent is None {
        assert(settings.user_agent@.take(5) == "Duma/"@);
        assert(settings.user_agent@.skip(5) == args.version@);
    }
}

/// A run that is to resume in ranges a download that left its state takes over what
/// was left, whatever the length of the content, if there is any; no other run takes
/// anything over.
pub proof fn lemma_what_was_left_is_taken_over(
    settings: Settings,
    file: String,
    headers: HeaderMap<HeaderValue>,
    state_file_exists: bool,
    ct_len: u64,
    left_offsets: Option<Vec<(u64, u64)>>,
    bytes_on_disk: Option<u64>,
    conf: Config,
)
    requires
        call_ensures(
            Settings::config,
            (&settings, file, headers, state_file_exists, ct_len, left_offsets, bytes_on_disk),
            conf,
        ),
    ensures
        state_file_exists && settings.resume_download && settings.concurrent_download && ct_len
            > 0 ==> conf.chunk_offsets == left_offsets,
        !state_file_exists || !settings.resume_download || !settings.concurrent_download
            || ct_len == 0 ==> conf.chunk_offsets is None,
        settings.resume_download ==> conf.bytes_on_disk == bytes_on_disk,
        !settings.resume_download ==> conf.bytes_on_disk is None,
{
}

/// What was left is looked up exactly where it is taken over.
pub proof fn lemma_what_was_left_is_looked_up(
    settings: Settings,
    file: String,
    headers: HeaderMap<HeaderValue>,
    state_file_exists: bool,
    ct_len: u64,
    left_offsets: Vec<(u64, u64)>,
    bytes_on_disk: Option<u64>,
    conf: Config,
    looked_up: bool,
)
    requires
        call_ensures(
            Settings::resumes_chunks,
            (&settings, state_file_exists, ct_len),
            looked_up,
        ),
        call_ensures(
            Settings::config,
            (
                &settings,
                file,
                headers,
                state_file_exists,
                ct_len,
                Some(left_offsets),
                bytes_on_disk,
            ),
            conf,
        ),
    ensures
        looked_up <==> conf.chunk_offsets == Some(left_offsets),
        looked_up <==> state_file_exists && settings.resume_download
            && settings.concurrent_download && ct_len > 0,
{
}

/// A download is configured as the run says, in ranges of 1,024,000 bytes and with
/// up to a hundred failures taken.
pub proof fn lemma_download_is_configured_as_asked(
    settings: Settings,
    file: String,
    headers: HeaderMap<HeaderValue>,
    state_file_exists: bool,
    ct_len: u64,
    left_offsets: Option<Vec<(u64, u64)>>,
    bytes_on_disk: Option<u64>,
    conf: Config,
)
    requires
        call_ensures(
            Settings::config,
            (&settings, file, headers, state_file_exists, ct_len, left_offsets, bytes_on_disk),
            conf,
        ),
    ensures
        conf.user_agent@ == settings.user_agent@,
        conf.resume == settings.resume_download,
        conf.headers == headers,
        conf.file == file,
        conf.timeout == settings.timeout,
        conf.concurrent == settings.concurrent_download,
        conf.num_workers == settings.num_workers,
        conf.quiet_mode == settings.quiet_mode,
        conf.chunk_size == 1_024_000,
        conf.max_retries == 100,
{
}

/// A run of a quiet program logs nothing; any other does.
pub proof fn lemma_quiet_is_quiet(args: Args, settings: Settings, logs: bool)
    requires
        call_ensures(run, (&args,), Ok::<Settings, CmdError>(settings)),
        call_ensures(Settings::logs, (&settings,), logs),
    ensures
        logs <==> !args.quiet,
{
}

/// The headers are printed exactly where they are asked for. Otherwise the download
/// goes on with the length that the server told in digits; with none where it told
/// none, or something that is no number; and not at all where what it told is no
/// text.
pub proof fn lemma_length_that_is_downloaded(
    settings: Settings,
    headers: HeaderMap<HeaderValue>,
    r: Result<NextStep, CmdError>,
    n: nat,
)
    requires
        call_ensures(Settings::after_headers, (&settings, &headers), r),
    ensures
        ({
            let entries = header_entries(headers);
            let told = entries["content-length"@][0];
            &&& settings.show_headers <==> r == Ok::<NextStep, CmdError>(NextStep::PrintHeaders)
            &&& !settings.show_headers && !entries.contains_key("content-length"@) ==> r == Ok::<
                NextStep,
                CmdError,
            >(NextStep::Download(0))
            &&& !settings.show_headers && entries.contains_key("content-length"@) ==> {
                let hidden = exists|i: int|
                    0 <= i < told.len() && (#[trigger] told[i] >= 127 || (told[i] < 32 && told[i]
                        != 9));
                &&& hidden <==> r is Err
                &&& hidden <==> r == Err::<NextStep, CmdError>(CmdError::InvalidLength)
                &&& told == vstd::utf8::encode_utf8(decimal(n)) && n <= u64::MAX ==> r == Ok::<
                    NextStep,
                    CmdError,
                >(NextStep::Download(n as u64))
                &&& !hidden && (exists|i: int|
                    0 <= i < told.len() && !(48 <= #[trigger] told[i] <= 57) && (i > 0 || told[i]
                        != 43 || told.len() == 1)) ==> r == Ok::<NextStep, CmdError>(
                    NextStep::Download(0),
                )
            }
        }),
{
    let told = header_entries(headers)["content-length"@][0];
    lemma_length_needs_digits(told);
    if n <= u64::MAX {
        lemma_length_is_read_back(n);
    }
    let hidden = exists|i: int|
        0 <= i < told.len() && (#[trigger] told[i] >= 127 || (told[i] < 32 && told[i] != 9));
    assert(is_visible(told) <==> !hidden) by {
        if hidden {
            let i = choose|i: int|
                0 <= i < told.len() && (#[trigger] told[i] >= 127 || (told[i] < 32 && told[i]
                    != 9));
            assert(!is_visible_byte(told[i]));
        } else {
            assert forall|i: int| 0 <= i < told.len() implies is_visible_byte(
                #[trigger] told[i],
            ) by {}
        }
    }
}

/// The scheme of the address decides the protocol: one for `ftp`, another for `http`
/// and `https`, and no other scheme has one.
pub proof fn lemma_scheme_decides_the_protocol(settings: Settings, r: Result<Route, CmdError>)
    requires
        call_ensures(Settings::route, (&settings,), r),
    ensures
        settings.url.scheme@ == seq!['f', 't', 'p'] <==> r == Ok::<Route, CmdError>(Route::Ftp),
        settings.url.scheme@ == seq!['h', 't', 't', 'p'] || settings.url.scheme@ == seq![
            'h',
            't',
            't',
            'p',
            's',
        ] <==> r == Ok::<Route, CmdError>(Route::Http),
        r matches Err(e) ==> e is UnsupportedScheme && e->UnsupportedScheme_0@
            == settings.url.scheme@,
{
    reveal_strlit("ftp");
    reveal_strlit("http");
    reveal_strlit("https");
    assert("ftp"@ == seq!['f', 't', 'p']);
    assert("http"@ == seq!['h', 't', 't', 'p']);
    assert("https"@ == seq!['h', 't', 't', 'p', 's']);
    assert("ftp"@.len() == 3 && "http"@.len() == 4 && "https"@.len() == 5);
}

/// The state of a download is kept beside its file: under the name of the file with
/// `.st` behind it, so that two files share no state.
pub proof fn lemma_state_is_kept_beside_the_file(
    file: &str,
    other: &str,
    name: String,
    other_name: String,
)
    requires
        call_ensures(state_file_name, (file,), name),
        call_ensures(state_file_name, (other,), other_name),
    ensures
        name@.len() == file@.len() + 3,
        name@.take(file@.len() as int) == file@,
        name@.skip(file@.len() as int) == seq!['.', 's', 't'],
        name@ == other_name@ ==> file@ == other@,
{
    reveal_strlit(".st");
    assert(name@.take(file@.len() as int) == file@);
    assert(name@.skip(file@.len() as int) == seq!['.', 's', 't']);
    if name@ == other_name@ {
        assert(other_name@.len() == other@.len() + 3);
        assert(other_name@.take(other@.len() as int) == other@);
    }
}

/// The message of an error names what is wrong: that there is no address, what is
/// wrong with it, or its scheme.
pub proof fn lemma_message_names_what_is_wrong(e: CmdError, message: Option<String>)
    requires
        call_ensures(CmdError::message, (&e,), message),
    ensures
        match e {
            CmdError::MissingUrl => {
                &&& message matches Some(text)
                &&& text@ == "missing URL argument"@
            },
            CmdError::InvalidUrl(error) => {
                &&& message matches Some(text)
                &&& text@ == error.message@
            },
            CmdError::UnsupportedScheme(scheme) => {
                &&& message matches Some(text)
                &&& text@.len() == 25 + scheme@.len()
                &&& text@.take(24) == "unsupported url scheme '"@
                &&& text@.subrange(24, 24 + scheme@.len() as int) == scheme@
                &&& text@.last() == '\''
            },
            _ => message is None,
        },
{
    reveal_strlit("unsupported url scheme '");
    reveal_strlit("'");
    if let CmdError::UnsupportedScheme(scheme) = e {
        let text = message->Some_0@;
        assert(text.take(24) == "unsupported url scheme '"@);
        assert(text.subrange(24, 24 + scheme@.len() as int) == scheme@);
    }
}

/// A download has the length that is read from the value that the server told; none
/// where that is no number.
pub proof fn lemma_length_is_read_from_what_was_told(
    settings: Settings,
    headers: HeaderMap<HeaderValue>,
    r: Result<NextStep, CmdError>,
    value: &[u8],
    length: Result<u64, LengthError>,
)
    requires
        call_ensures(Settings::after_headers, (&settings, &headers), r),
        call_ensures(parse_length, (value,), length),
        !settings.show_headers,
        header_entries(headers).contains_key("content-length"@),
        header_entries(headers)["content-length"@][0] == value@,
    ensures
        match length {
            Ok(n) => r == Ok::<NextStep, CmdError>(NextStep::Download(n)),
            Err(LengthError::NotNumber(_)) => r == Ok::<NextStep, CmdError>(NextStep::Download(0)),
            Err(LengthError::NotText) => r == Err::<NextStep, CmdError>(CmdError::InvalidLength),
        },
{
}

} // verus!
