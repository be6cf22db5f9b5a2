//! HTTP header maps: what this crate reads from them and writes to them.
//!
//! The maps are those of the `http` crate, as `reqwest` hands them out. What a
//! map holds is [`header_entries`]; a header value is its bytes.
use reqwest::header::{HeaderMap, HeaderValue, InvalidHeaderValue, MaxSizeReached, ToStrError};
use vstd::prelude::*;

use crate::numbers::{decimal, lemma_decimal_digits, lemma_decimal_is_read_back};
use crate::numbers::{is_digit, lemma_number_is_digits, number_of, parse_number, NumberError};

verus! {

/// A map from header names to header values.
#[verifier::external_type_specification]
#[verifier::external_body]
#[verifier::reject_recursive_types(T)]
pub struct ExHeaderMap<T>(HeaderMap<T>);

/// The value of one header.
#[verifier::external_type_specification]
#[verifier::external_body]
pub struct ExHeaderValue(HeaderValue);

/// The error of a text that cannot be a header value.
#[verifier::external_type_specification]
#[verifier::external_body]
pub struct ExInvalidHeaderValue(InvalidHeaderValue);

/// The error of a header value that is not text.
#[verifier::external_type_specification]
#[verifier::external_body]
pub struct ExToStrError(ToStrError);

/// The error of a header map that cannot grow.
#[verifier::external_type_specification]
#[verifier::external_body]
pub struct ExMaxSizeReached(MaxSizeReached);

/// What a header map holds: for each name, in lower case, the bytes of its
/// values in the order in which they were added.
pub uninterp spec fn header_entries(map: HeaderMap<HeaderValue>) -> Map<Seq<char>, Seq<Seq<u8>>>;

/// A header map with fewer names than this always takes one more. A map does
/// not grow beyond 32768 slots; it asks for more when three quarters of them
/// are taken or, after many collisions, when a fifth of them is.
pub const SAFE_HEADER_NAMES: usize = 6554;

/// The bytes that a header value may hold: all but the control characters,
/// and of those the tab.
pub open spec fn is_value_byte(b: u8) -> bool {
    (b >= 32 && b != 127) || b == 9
}

/// The bytes of a header value that can be read as text.
pub open spec fn is_visible_byte(b: u8) -> bool {
    (32 <= b < 127) || b == 9
}

pub open spec fn is_header_value(bytes: Seq<u8>) -> bool {
    forall|i: int| 0 <= i < bytes.len() ==> is_value_byte(#[trigger] bytes[i])
}

pub open spec fn is_visible(bytes: Seq<u8>) -> bool {
    forall|i: int| 0 <= i < bytes.len() ==> is_visible_byte(#[trigger] bytes[i])
}

/// The text whose characters are the given bytes.
pub open spec fn ascii_text(bytes: Seq<u8>) -> Seq<char> {
    Seq::new(bytes.len(), |i: int| bytes[i] as char)
}

/// The names that this crate looks up: lower case letters and hyphens.
pub open spec fn is_plain_name(name: Seq<char>) -> bool {
    &&& 0 < name.len() < 64
    &&& forall|i: int| 0 <= i < name.len() ==> 'a' <= #[trigger] name[i] <= 'z' || name[i] == '-'
}

/// `entries` with `value` as the only value of `name`.
pub open spec fn with_value(
    entries: Map<Seq<char>, Seq<Seq<u8>>>,
    name: Seq<char>,
    value: Seq<u8>,
) -> Map<Seq<char>, Seq<Seq<u8>>> {
    entries.insert(name, seq![value])
}

/// `entries` with `value` after the values that `name` has already.
pub open spec fn with_added_value(
    entries: Map<Seq<char>, Seq<Seq<u8>>>,
    name: Seq<char>,
    value: Seq<u8>,
) -> Map<Seq<char>, Seq<Seq<u8>>> {
    if entries.contains_key(name) {
        entries.insert(name, entries[name].push(value))
    } else {
        entries.insert(name, seq![value])
    }
}

/// `HeaderMap::get`: the bytes of the first value of `name`, where there is
/// one. A name that the map holds has at least one value, and a value holds
/// only bytes that a header value may hold.
#[verifier::external_body]
pub(crate) fn headers_get(map: &HeaderMap<HeaderValue>, name: &str) -> (r: Option<Vec<u8>>)
    requires
        is_plain_name(name@),
    ensures
        r is Some <==> header_entries(*map).contains_key(name@),
        r matches Some(value) ==> header_entries(*map)[name@].len() > 0 && value@
            == header_entries(*map)[name@][0] && is_header_value(value@),
{
    map.get(name).map(|value| value.as_bytes().to_vec())
}

/// `HeaderMap::contains_key`: whether the map holds `name`.
#[verifier::external_body]
pub(crate) fn headers_contain(map: &HeaderMap<HeaderValue>, name: &str) -> (r: bool)
    requires
        is_plain_name(name@),
    ensures
        r == header_entries(*map).contains_key(name@),
{
    map.contains_key(name)
}

/// `HeaderMap::remove`: takes `name` with all of its values out of the map and
/// leaves the other names as they are.
#[verifier::external_body]
pub(crate) fn headers_remove(map: &mut HeaderMap<HeaderValue>, name: &str)
    requires
        is_plain_name(name@),
    ensures
        header_entries(*final(map)) == header_entries(*old(map)).remove(name@),
{
    map.remove(name);
}

/// `HeaderMap::try_insert`: makes `value` the only value of `name`. A map that
/// cannot grow is left as it is; one with fewer than [`SAFE_HEADER_NAMES`]
/// names can.
#[verifier::external_body]
pub(crate) fn headers_insert(
    map: &mut HeaderMap<HeaderValue>,
    name: &'static str,
    value: &[u8],
) -> (r: Result<(), MaxSizeReached>)
    requires
        is_plain_name(name@),
        is_header_value(value@),
    ensures
        r is Ok ==> header_entries(*final(map)) == with_value(
            header_entries(*old(map)),
            name@,
            value@,
        ),
        r is Err ==> header_entries(*final(map)) == header_entries(*old(map))
            && header_entries(*old(map)).dom().len() >= SAFE_HEADER_NAMES,
{
    map.try_insert(name, HeaderValue::from_bytes(value).unwrap()).map(|_previous| ())
}

/// `HeaderMap::try_append`: adds `value` after the values that `name` has. A
/// map that cannot grow is left as it is; one with fewer than
/// [`SAFE_HEADER_NAMES`] names can.
#[verifier::external_body]
pub(crate) fn headers_append(
    map: &mut HeaderMap<HeaderValue>,
    name: &'static str,
    value: &[u8],
) -> (r: Result<(), MaxSizeReached>)
    requires
        is_plain_name(name@),
        is_header_value(value@),
    ensures
        r is Ok ==> header_entries(*final(map)) == with_added_value(
            header_entries(*old(map)),
            name@,
            value@,
        ),
        r is Err ==> header_entries(*final(map)) == header_entries(*old(map))
            && header_entries(*old(map)).dom().len() >= SAFE_HEADER_NAMES,
{
    map.try_append(name, HeaderValue::from_bytes(value).unwrap()).map(|_existed| ())
}

/// `HeaderMap::clone`: a map that holds the same, and finitely many names.
#[verifier::external_body]
pub(crate) fn headers_clone(map: &HeaderMap<HeaderValue>) -> (r: HeaderMap<HeaderValue>)
    ensures
        header_entries(r) == header_entries(*map),
        header_entries(r).dom().finite(),
{
    map.clone()
}

/// `HeaderValue::from_str`: the bytes of the header value that holds `text`.
/// There is one exactly where the UTF-8 bytes of `text` are bytes that a
/// header value may hold, and it holds those.
#[verifier::external_body]
pub(crate) fn header_value(text: &str) -> (r: Result<Vec<u8>, InvalidHeaderValue>)
    ensures
        r is Ok <==> is_header_value(vstd::utf8::encode_utf8(text@)),
        r matches Ok(bytes) ==> bytes@ == vstd::utf8::encode_utf8(text@),
{
    HeaderValue::from_str(text).map(|value| value.as_bytes().to_vec())
}

/// `HeaderValue::to_str`: the text of the header value that holds `bytes`.
/// There is one exactly where all of them are visible ASCII characters or
/// tabs.
#[verifier::external_body]
pub(crate) fn header_text(bytes: &[u8]) -> (r: Result<String, ToStrError>)
    requires
        is_header_value(bytes@),
    ensures
        r is Ok <==> is_visible(bytes@),
        r matches Ok(text) ==> text@ == ascii_text(bytes@),
{
    HeaderValue::from_bytes(bytes).unwrap().to_str().map(|text| text.to_string())
}

/// Why a header cannot be set.
#[derive(Clone, Copy, Debug, PartialEq, Eq, Structural)]
pub enum HeaderError {
    /// The text holds a control character.
    InvalidValue,
    /// The map cannot take another name.
    TooManyHeaders,
}

/// Makes `text` the only value of the header `name`.
pub fn set_header(map: &mut HeaderMap<HeaderValue>, name: &'static str, text: &str) -> (r: Result<
    (),
    HeaderError,
>)
    requires
        is_plain_name(name@),
    ensures
        r is Ok ==> header_entries(*final(map)) == with_value(
            header_entries(*old(map)),
            name@,
            vstd::utf8::encode_utf8(text@),
        ),
        r is Err ==> header_entries(*final(map)) == header_entries(*old(map)),
        r == Err::<(), HeaderError>(HeaderError::InvalidValue) <==> !is_header_value(
            vstd::utf8::encode_utf8(text@),
        ),
        r == Err::<(), HeaderError>(HeaderError::TooManyHeaders) ==> header_entries(
            *old(map),
        ).dom().len() >= SAFE_HEADER_NAMES,
{
    match header_value(text) {
        Err(_) => Err(HeaderError::InvalidValue),
        Ok(value) => match headers_insert(map, name, value.as_slice()) {
            Ok(_) => Ok(()),
            Err(_) => Err(HeaderError::TooManyHeaders),
        },
    }
}

/// Adds `text` to the values of the header `name`.
pub fn add_header(map: &mut HeaderMap<HeaderValue>, name: &'static str, text: &str) -> (r: Result<
    (),
    HeaderError,
>)
    requires
        is_plain_name(name@),
    ensures
        r is Ok ==> header_entries(*final(map)) == with_added_value(
            header_entries(*old(map)),
            name@,
            vstd::utf8::encode_utf8(text@),
        ),
        r is Err ==> header_entries(*final(map)) == header_entries(*old(map)),
        r == Err::<(), HeaderError>(HeaderError::InvalidValue) <==> !is_header_value(
            vstd::utf8::encode_utf8(text@),
        ),
        r == Err::<(), HeaderError>(HeaderError::TooManyHeaders) ==> header_entries(
            *old(map),
        ).dom().len() >= SAFE_HEADER_NAMES,
{
    match header_value(text) {
        Err(_) => Err(HeaderError::InvalidValue),
        Ok(value) => match headers_append(map, name, value.as_slice()) {
            Ok(_) => Ok(()),
            Err(_) => Err(HeaderError::TooManyHeaders),
        },
    }
}

/// Why a header does not give a length.
#[derive(Clone, Copy, Debug, PartialEq, Eq, Structural)]
pub enum LengthError {
    /// The value holds other bytes than visible ASCII characters and tabs.
    NotText,
    /// The text is not a number.
    NotNumber(NumberError),
}

/// The length that a header value states.
pub open spec fn length_of(bytes: Seq<u8>) -> Result<int, LengthError> {
    if !is_visible(bytes) {
        Err(LengthError::NotText)
    } else {
        match number_of(ascii_text(bytes), u64::MAX as int) {
            Ok(n) => Ok(n),
            Err(e) => Err(LengthError::NotNumber(e)),
        }
    }
}

/// Reads the value of a `Content-Length` header.
pub fn parse_length(value: &[u8]) -> (r: Result<u64, LengthError>)
    requires
        is_header_value(value@),
    ensures
        match length_of(value@) {
            Ok(n) => r is Ok && r->Ok_0 == n,
            Err(e) => r == Err::<u64, LengthError>(e),
        },
{
    match header_text(value) {
        Err(_) => Err(LengthError::NotText),
        Ok(text) => match parse_number(text.as_str(), u64::MAX) {
            Ok(n) => Ok(n),
            Err(e) => Err(LengthError::NotNumber(e)),
        },
    }
}

fn same_bytes(a: &[u8], b: &[u8]) -> (r: bool)
    ensures
        r == (a@ == b@),
{
    if a.len() != b.len() {
        return false;
    }
    let mut i: usize = 0;
    while i < a.len()
        invariant
            i <= a.len(),
            a@.len() == b@.len(),
            a@.take(i as int) == b@.take(i as int),
        decreases a.len() - i,
    {
        if a[i] != b[i] {
            return false;
        }
        assert(a@.take(i + 1) == a@.take(i as int).push(a@[i as int]));
        assert(b@.take(i + 1) == b@.take(i as int).push(b@[i as int]));
        i = i + 1;
    }
    assert(a@.take(i as int) == a@);
    assert(b@.take(i as int) == b@);
    true
}

/// Whether a response with these headers comes from a server that serves
/// ranges of bytes: the first `Accept-Ranges` value is `bytes`.
pub open spec fn serves_byte_ranges(entries: Map<Seq<char>, Seq<Seq<u8>>>) -> bool {
    entries.contains_key("accept-ranges"@) && entries["accept-ranges"@][0]
        == vstd::utf8::encode_utf8("bytes"@)
}

/// Tells from the headers of a response whether the server serves ranges of
/// bytes.
pub fn supports_bytes(headers: &HeaderMap<HeaderValue>) -> (r: bool)
    ensures
        r == serves_byte_ranges(header_entries(*headers)),
{
    proof {
        reveal_strlit("accept-ranges");
    }
    match headers_get(headers, "accept-ranges") {
        None => false,
        Some(value) => same_bytes(value.as_slice(), "bytes".as_bytes()),
    }
}

/// A text of printable ASCII characters can be a header value, and that value
/// can be read as the text again.
pub proof fn lemma_printable_is_value(text: Seq<char>)
    requires
        forall|i: int| 0 <= i < text.len() ==> ' ' <= #[trigger] text[i] <= '~',
    ensures
        is_header_value(vstd::utf8::encode_utf8(text)),
        is_visible(vstd::utf8::encode_utf8(text)),
        ascii_text(vstd::utf8::encode_utf8(text)) == text,
{
    let bytes = vstd::utf8::encode_utf8(text);
    vstd::utf8::is_ascii_chars_encode_utf8(text);
    assert forall|i: int| 0 <= i < bytes.len() implies is_visible_byte(#[trigger] bytes[i])
        && bytes[i] as char == text[i] by {
        assert(' ' <= text[i] <= '~');
        assert(text[i] as u8 == bytes[i]);
    }
    assert(ascii_text(bytes) == text);
}

/// A length that is written in decimal is read back as that length.
pub proof fn lemma_length_is_read_back(n: nat)
    requires
        n <= u64::MAX,
    ensures
        length_of(vstd::utf8::encode_utf8(decimal(n))) == Ok::<int, LengthError>(n as int),
{
    lemma_decimal_digits(n);
    lemma_printable_is_value(decimal(n));
    lemma_decimal_is_read_back(n, u64::MAX as int);
}

/// A length is a number alone: a text with anything but digits behind one optional
/// plus sign gives none, and bytes that are no visible characters or tabs are not
/// even text.
pub proof fn lemma_length_needs_digits(bytes: Seq<u8>)
    ensures
        length_of(bytes) == Err::<int, LengthError>(LengthError::NotText) <==> exists|i: int|
            0 <= i < bytes.len() && (#[trigger] bytes[i] >= 127 || (bytes[i] < 32 && bytes[i]
                != 9)),
        (exists|i: int|
            0 <= i < bytes.len() && !(48 <= #[trigger] bytes[i] <= 57) && (i > 0 || bytes[i] != 43
                || bytes.len() == 1)) ==> length_of(bytes) is Err,
        bytes.len() == 0 ==> length_of(bytes) is Err,
{
    let text = ascii_text(bytes);
    if length_of(bytes) is Ok {
        lemma_number_is_digits(text, u64::MAX as int);
        assert forall|i: int| 0 <= i < bytes.len() implies 48 <= #[trigger] bytes[i] <= 57 || (i
            == 0 && bytes[i] == 43 && bytes.len() > 1) by {
            assert(text[i] == bytes[i] as char);
            assert(is_digit(text[i]) || (i == 0 && text[i] == '+' && text.len() > 1));
        }
    }
    if exists|i: int|
        0 <= i < bytes.len() && (#[trigger] bytes[i] >= 127 || (bytes[i] < 32 && bytes[i] != 9)) {
        let i = choose|i: int|
            0 <= i < bytes.len() && (#[trigger] bytes[i] >= 127 || (bytes[i] < 32 && bytes[i]
                != 9));
        assert(!is_visible_byte(bytes[i]));
    } else {
        assert forall|i: int| 0 <= i < bytes.len() implies is_visible_byte(#[trigger] bytes[i]) by {
        }
    }
}

/// The value of a `Content-Length` header is the length that is written in it.
pub proof fn lemma_length_that_is_written(
    value: &[u8],
    n: nat,
    r: Result<u64, LengthError>,
)
    requires
        call_ensures(parse_length, (value,), r),
        n <= u64::MAX,
        value@ == vstd::utf8::encode_utf8(decimal(n)),
    ensures
        r == Ok::<u64, LengthError>(n as u64),
{
    lemma_length_is_read_back(n);
}

/// No length is read from a value that holds none.
pub proof fn lemma_no_length_is_written(value: &[u8], r: Result<u64, LengthError>)
    requires
        call_ensures(parse_length, (value,), r),
    ensures
        r == Err::<u64, LengthError>(LengthError::NotText) <==> exists|i: int|
            0 <= i < value@.len() && (#[trigger] value@[i] >= 127 || (value@[i] < 32 && value@[i]
                != 9)),
        (exists|i: int|
            0 <= i < value@.len() && !(48 <= #[trigger] value@[i] <= 57) && (i > 0 || value@[i]
                != 43 || value@.len() == 1)) ==> r is Err,
        value@.len() == 0 ==> r is Err,
{
    lemma_length_needs_digits(value@);
}

/// A server serves ranges of bytes exactly where `bytes` is the first thing that
/// it names as what it accepts ranges of.
pub proof fn lemma_ranges_are_served(headers: HeaderMap<HeaderValue>, r: bool)
    requires
        call_ensures(supports_bytes, (&headers,), r),
    ensures
        !header_entries(headers).contains_key("accept-ranges"@) ==> !r,
        header_entries(headers).contains_key("accept-ranges"@) ==> r == (header_entries(
            headers,
        )["accept-ranges"@][0] == vstd::utf8::encode_utf8("bytes"@)),
{
}

/// A header that is set has the one value that it is set to; all other headers are
/// as they were. One that cannot be set leaves all of them as they were. It can be
/// set wherever the text is printable and the map holds few names.
pub proof fn lemma_header_is_set(
    name: &'static str,
    text: &str,
    other: Seq<char>,
    r: Result<(), HeaderError>,
)
    ensures
        forall|map: &mut HeaderMap<HeaderValue>|
            #[trigger] call_ensures(set_header, (map, name, text), r) ==> {
                let before = header_entries(*map);
                let after = header_entries(*final(map));
                &&& r is Ok ==> {
                    &&& after.contains_key(name@)
                    &&& after[name@] == seq![vstd::utf8::encode_utf8(text@)]
                    &&& other != name@ ==> {
                        &&& after.contains_key(other) == before.contains_key(other)
                        &&& before.contains_key(other) ==> after[other] == before[other]
                    }
                }
                &&& r is Err ==> after == before
                &&& r == Err::<(), HeaderError>(HeaderError::InvalidValue) <==> exists|i: int|
                    0 <= i < vstd::utf8::encode_utf8(text@).len() && (
                    #[trigger] vstd::utf8::encode_utf8(text@)[i] == 127 || (
                    vstd::utf8::encode_utf8(text@)[i] < 32 && vstd::utf8::encode_utf8(text@)[i]
                        != 9))
                &&& (forall|i: int|
                    0 <= i < text@.len() ==> ' ' <= #[trigger] text@[i] <= '~')
                    && before.dom().len() < 6_000 ==> r is Ok
            },
{
    lemma_what_no_value_holds(vstd::utf8::encode_utf8(text@));
    if forall|i: int| 0 <= i < text@.len() ==> ' ' <= #[trigger] text@[i] <= '~' {
        lemma_printable_is_value(text@);
    }
    assert forall|map: &mut HeaderMap<HeaderValue>|
        #[trigger] call_ensures(set_header, (map, name, text), r) && is_header_value(
            vstd::utf8::encode_utf8(text@),
        ) && header_entries(*map).dom().len() < SAFE_HEADER_NAMES implies r is Ok by {
        if let Err(e) = r {
            assert(e == HeaderError::InvalidValue || e == HeaderError::TooManyHeaders);
        }
    }
}

/// A header that is added to keeps the values that it has, in front of the one that
/// is added; all other headers are as they were. One that cannot be added to leaves
/// all of them as they were. It can be added to wherever the text is printable and
/// the map holds few names.
pub proof fn lemma_header_is_added_to(
    name: &'static str,
    text: &str,
    other: Seq<char>,
    r: Result<(), HeaderError>,
)
    ensures
        forall|map: &mut HeaderMap<HeaderValue>|
            #[trigger] call_ensures(add_header, (map, name, text), r) ==> {
                let before = header_entries(*map);
                let after = header_entries(*final(map));
                &&& r is Ok ==> {
                    &&& after.contains_key(name@)
                    &&& after[name@].last() == vstd::utf8::encode_utf8(text@)
                    &&& if before.contains_key(name@) {
                        after[name@].drop_last() == before[name@]
                    } else {
                        after[name@].len() == 1
                    }
                    &&& other != name@ ==> {
                        &&& after.contains_key(other) == before.contains_key(other)
                        &&& before.contains_key(other) ==> after[other] == before[other]
                    }
                }
                &&& r is Err ==> after == before
                &&& r == Err::<(), HeaderError>(HeaderError::InvalidValue) <==> exists|i: int|
                    0 <= i < vstd::utf8::encode_utf8(text@).len() && (
                    #[trigger] vstd::utf8::encode_utf8(text@)[i] == 127 || (
                    vstd::utf8::encode_utf8(text@)[i] < 32 && vstd::utf8::encode_utf8(text@)[i]
                        != 9))
                &&& (forall|i: int|
                    0 <= i < text@.len() ==> ' ' <= #[trigger] text@[i] <= '~')
                    && before.dom().len() < 6_000 ==> r is Ok
            },
{
    let value = vstd::utf8::encode_utf8(text@);
    lemma_what_no_value_holds(value);
    assert forall|values: Seq<Seq<u8>>| #[trigger] values.push(value).drop_last() == values by {
        assert(values.push(value).drop_last() =~= values);
    }
    if forall|i: int| 0 <= i < text@.len() ==> ' ' <= #[trigger] text@[i] <= '~' {
        lemma_printable_is_value(text@);
    }
    assert forall|map: &mut HeaderMap<HeaderValue>|
        #[trigger] call_ensures(add_header, (map, name, text), r) implies {
        let before = header_entries(*map);
        r is Ok && before.contains_key(name@) ==> header_entries(*final(map))[name@].drop_last()
            == before[name@]
    } by {
        let before = header_entries(*map);
        assert(before[name@].push(value).drop_last() == before[name@]);
    }
    assert forall|map: &mut HeaderMap<HeaderValue>|
        #[trigger] call_ensures(add_header, (map, name, text), r) && is_header_value(value)
            && header_entries(*map).dom().len() < SAFE_HEADER_NAMES implies r is Ok by {
        if let Err(e) = r {
            assert(e == HeaderError::InvalidValue || e == HeaderError::TooManyHeaders);
        }
    }
}

/// The length in a value of visible characters or tabs is read as the number in its
/// text is, with the same error where there is none.
pub proof fn lemma_length_is_the_number_in_the_text(
    value: &[u8],
    r: Result<u64, LengthError>,
    text: &str,
    number: Result<u64, NumberError>,
)
    requires
        call_ensures(parse_length, (value,), r),
        call_ensures(parse_number, (text, u64::MAX), number),
        text@.len() == value@.len(),
        forall|i: int|
            0 <= i < value@.len() ==> (#[trigger] text@[i]) as int == value@[i] && (32 <= value@[i]
                < 127 || value@[i] == 9),
    ensures
        match number {
            Ok(n) => r == Ok::<u64, LengthError>(n),
            Err(e) => r == Err::<u64, LengthError>(LengthError::NotNumber(e)),
        },
{
    assert forall|i: int| 0 <= i < value@.len() implies is_visible_byte(#[trigger] value@[i]) by {
        assert(text@[i] as int == value@[i]);
    }
    assert(ascii_text(value@) =~= text@) by {
        assert forall|i: int| 0 <= i < value@.len() implies ascii_text(value@)[i]
            == #[trigger] text@[i] by {}
    }
}

/// Bytes are no header value exactly where one of them is a control character other
/// than the tab.
pub proof fn lemma_what_no_value_holds(value: Seq<u8>)
    ensures
        !is_header_value(value) <==> exists|i: int|
            0 <= i < value.len() && (#[trigger] value[i] == 127 || (value[i] < 32 && value[i]
                != 9)),
{
    if exists|i: int|
        0 <= i < value.len() && (#[trigger] value[i] == 127 || (value[i] < 32 && value[i] != 9)) {
        let i = choose|i: int|
            0 <= i < value.len() && (#[trigger] value[i] == 127 || (value[i] < 32 && value[i]
                != 9));
        assert(!is_value_byte(value[i]));
    } else {
        assert forall|i: int| 0 <= i < value.len() implies is_value_byte(#[trigger] value[i]) by {}
    }
}

} // verus!
