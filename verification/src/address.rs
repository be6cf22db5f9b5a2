//! Addresses of files: the parts of a URL that a download reads.
use url::Url;
use vstd::prelude::*;

verus! {

/// The normal form of the URL that a text is, or the message of the error where
/// it is none.
pub uninterp spec fn url_text(text: Seq<char>) -> Result<Seq<char>, Seq<char>>;

/// The scheme of the URL that a text is.
pub uninterp spec fn url_scheme(text: Seq<char>) -> Seq<char>;

/// The user name in the URL that a text is; empty where there is none.
pub uninterp spec fn url_username(text: Seq<char>) -> Seq<char>;

/// The password in the URL that a text is.
pub uninterp spec fn url_password(text: Seq<char>) -> Option<Seq<char>>;

/// The host in the URL that a text is.
pub uninterp spec fn url_host(text: Seq<char>) -> Option<Seq<char>>;

/// The port in the URL that a text is, or the one that its scheme is known by.
pub uninterp spec fn url_port(text: Seq<char>) -> Option<u16>;

/// The segments of the path of the URL that a text is.
pub uninterp spec fn url_path_segments(text: Seq<char>) -> Option<Seq<Seq<char>>>;

/// The characters of an optional text.
pub open spec fn optional_text(text: Option<String>) -> Option<Seq<char>> {
    match text {
        Some(text) => Some(text@),
        None => None,
    }
}

/// The characters of the texts of a list.
pub open spec fn texts(list: Seq<String>) -> Seq<Seq<char>> {
    list.map_values(|text: String| text@)
}

/// `Url::parse`, with `Url::as_str` of the URL or the text that `Display` gives of
/// the `ParseError`: the normal form of the URL that `text` is, or the message of
/// the error. Whether there is a URL, and what comes of it, depends on the text
/// alone.
#[verifier::external_body]
fn normal_form(text: &str) -> (r: Result<String, String>)
    ensures
        match r {
            Ok(normal) => url_text(text@) == Ok::<Seq<char>, Seq<char>>(normal@),
            Err(message) => url_text(text@) == Err::<Seq<char>, Seq<char>>(message@),
        },
{
    match Url::parse(text) {
        Ok(url) => Ok(url.as_str().to_string()),
        Err(e) => Err(e.to_string()),
    }
}

/// `Url::scheme`, of the URL that `text` is.
#[verifier::external_body]
fn scheme(text: &str) -> (r: String)
    requires
        url_text(text@) is Ok,
    ensures
        r@ == url_scheme(text@),
{
    Url::parse(text).unwrap().scheme().to_string()
}

/// `Url::username`, of the URL that `text` is.
#[verifier::external_body]
fn username(text: &str) -> (r: String)
    requires
        url_text(text@) is Ok,
    ensures
        r@ == url_username(text@),
{
    Url::parse(text).unwrap().username().to_string()
}

/// `Url::password`, of the URL that `text` is.
#[verifier::external_body]
fn password(text: &str) -> (r: Option<String>)
    requires
        url_text(text@) is Ok,
    ensures
        optional_text(r) == url_password(text@),
{
    Url::parse(text).unwrap().password().map(|password| password.to_string())
}

/// `Url::host_str`, of the URL that `text` is.
#[verifier::external_body]
fn host(text: &str) -> (r: Option<String>)
    requires
        url_text(text@) is Ok,
    ensures
        optional_text(r) == url_host(text@),
{
    Url::parse(text).unwrap().host_str().map(|host| host.to_string())
}

/// `Url::port_or_known_default`, of the URL that `text` is: a port is known
/// for the schemes `http`, `https` and `ftp` in any case.
#[verifier::external_body]
fn port(text: &str) -> (r: Option<u16>)
    requires
        url_text(text@) is Ok,
    ensures
        r == url_port(text@),
        url_scheme(text@) == "http"@ || url_scheme(text@) == "https"@ || url_scheme(text@)
            == "ftp"@ ==> r is Some,
{
    Url::parse(text).unwrap().port_or_known_default()
}

/// `Url::path_segments`, of the URL that `text` is. Where there are segments,
/// there is at least one.
#[verifier::external_body]
fn path_segments(text: &str) -> (r: Option<Vec<String>>)
    requires
        url_text(text@) is Ok,
    ensures
        match r {
            Some(segments) => url_path_segments(text@) == Some(texts(segments@))
                && segments@.len() > 0,
            None => url_path_segments(text@) is None,
        },
{
    let url = Url::parse(text).unwrap();
    url.path_segments().map(|segments| segments.map(|segment| segment.to_string()).collect())
}

/// The error of a text that is not an address.
#[derive(Clone, Debug)]
pub struct AddressError {
    pub message: String,
}

/// The address of a file.
#[derive(Clone, Debug)]
pub struct Address {
    /// The whole address.
    pub text: String,
    pub scheme: String,
    /// Empty where the address names no user.
    pub username: String,
    pub password: Option<String>,
    pub host: Option<String>,
    /// The port that the address names, or the one that the scheme is known by.
    pub port: Option<u16>,
    /// The segments of the path; none where the address has no path to divide.
    pub path_segments: Option<Vec<String>>,
}

impl Address {
    /// Whether this is the address that `source` is the text of.
    pub open spec fn is_parsed_from(self, source: Seq<char>) -> bool {
        &&& url_text(source) == Ok::<Seq<char>, Seq<char>>(self.text@)
        &&& self.scheme@ == url_scheme(source)
        &&& self.username@ == url_username(source)
        &&& optional_text(self.password) == url_password(source)
        &&& optional_text(self.host) == url_host(source)
        &&& self.port == url_port(source)
        &&& match self.path_segments {
            Some(segments) => url_path_segments(source) == Some(texts(segments@)),
            None => url_path_segments(source) is None,
        }
    }

    /// What holds of every address that was read from a text: a path that can
    /// be divided has a segment, and the schemes that files are fetched by have
    /// a port.
    pub open spec fn wf(self) -> bool {
        &&& self.path_segments matches Some(segments) ==> segments@.len() > 0
        &&& self.scheme@ == "http"@ || self.scheme@ == "https"@ || self.scheme@ == "ftp"@
            ==> self.port is Some
    }

    /// Reads an address.
    pub fn parse(source: &str) -> (r: Result<Address, AddressError>)
        ensures
            match r {
                Ok(address) => address.is_parsed_from(source@) && address.wf(),
                Err(e) => url_text(source@) == Err::<Seq<char>, Seq<char>>(e.message@),
            },
    {
        match normal_form(source) {
            Err(message) => Err(AddressError { message }),
            Ok(text) => Ok(
                Address {
                    text,
                    scheme: scheme(source),
                    username: username(source),
                    password: password(source),
                    host: host(source),
                    port: port(source),
                    path_segments: path_segments(source),
                },
            ),
        }
    }
}

/// An address is read exactly where its text is a URL, and has the parts of that
/// URL, each in its place; otherwise the error says what is wrong with the text.
pub proof fn lemma_address_has_the_parts_of_its_text(
    source: &str,
    r: Result<Address, AddressError>,
)
    requires
        call_ensures(Address::parse, (source,), r),
    ensures
        match (r, url_text(source@)) {
            (Ok(address), Ok(normal)) => {
                &&& address.text@ == normal
                &&& address.scheme@ == url_scheme(source@)
                &&& address.username@ == url_username(source@)
                &&& match address.password {
                    Some(password) => url_password(source@) == Some(password@),
                    None => url_password(source@) is None,
                }
                &&& match address.host {
                    Some(host) => url_host(source@) == Some(host@),
                    None => url_host(source@) is None,
                }
                &&& address.port == url_port(source@)
                &&& match address.path_segments {
                    Some(segments) => {
                        &&& url_path_segments(source@) is Some
                        &&& url_path_segments(source@)->Some_0.len() == segments@.len()
                        &&& segments@.len() > 0
                        &&& forall|i: int|
                            0 <= i < segments@.len() ==> (#[trigger] segments@[i])@
                                == url_path_segments(source@)->Some_0[i]
                    },
                    None => url_path_segments(source@) is None,
                }
            },
            (Err(e), Err(message)) => e.message@ == message,
            _ => false,
        },
{
    if let Ok(address) = r {
        if let Some(segments) = address.path_segments {
            assert forall|i: int| 0 <= i < segments@.len() implies (#[trigger] segments@[i])@
                == url_path_segments(source@)->Some_0[i] by {
                assert(texts(segments@)[i] == segments@[i]@);
            }
        }
    }
}

} // verus!
