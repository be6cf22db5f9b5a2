//! Ways to show how a download goes.
use vstd::prelude::*;

use crate::numbers::{decimal, decimal_text, lemma_decimal_digits, lemma_decimal_is_read_back};
use crate::numbers::{number_of, NumberError};

verus! {

/// A display of how a download goes.
pub trait Progress: Send + Sync {
    /// A display with a message, of a download whose length may be known.
    fn new(msg: &str, length: Option<u64>) -> Self where Self: Sized;

    /// `delta` more bytes have arrived.
    fn inc(&self, delta: u64);

    /// The download has ended, and what it wrote is at `path`.
    fn finish(&self, status: u8, path: Option<String>);
}

/// A display that writes a line for each event.
pub struct ProgressCallback {}

/// A text as a developer is shown it: in double quotes, with the characters
/// that would not show, or would be mistaken, escaped.
pub uninterp spec fn quoted(text: Seq<char>) -> Seq<char>;

/// `<str as Debug>::fmt`, by which `{:?}` writes a text: what it writes depends
/// on the text alone.
#[verifier::external_body]
fn quote(text: &str) -> (r: String)
    ensures
        r@ == quoted(text@),
{
    format!("{:?}", text)
}

/// An optional value as a developer is shown it, where `shown` is its content
/// as a developer is shown that.
pub open spec fn optional_shown(shown: Option<Seq<char>>) -> Seq<char> {
    match shown {
        Some(shown) => "Some("@ + shown + ")"@,
        None => "None"@,
    }
}

/// The line of the end of a download, where `shown` is the path as a developer
/// is shown it.
pub open spec fn finish_text(status: u8, shown: Option<Seq<char>>) -> Seq<char> {
    "finish "@ + decimal(status as nat) + " "@ + optional_shown(shown)
}

impl ProgressCallback {
    pub fn new(msg: &str, length: Option<u64>) -> (r: ProgressCallback)
        ensures
            r == (ProgressCallback {  }),
    {
        ProgressCallback {  }
    }

    /// The line that is written when `delta` more bytes have arrived.
    pub fn inc(&self, delta: u64) -> (r: String)
        ensures
            r@ == "inc "@ + decimal(delta as nat),
    {
        let mut line = String::new();
        line.append("inc ");
        line.append(decimal_text(delta).as_str());
        assert(line@ == "inc "@ + decimal(delta as nat));
        line
    }

    /// The line that is written when the download has ended.
    pub fn finish(&self, status: u8, path: Option<String>) -> (r: String)
        ensures
            r@ == finish_text(
                status,
                match path {
                    Some(path) => Some(quoted(path@)),
                    None => None,
                },
            ),
    {
        let shown = match &path {
            Some(path) => Some(quote(path.as_str())),
            None => None,
        };
        finish_line(status, &shown)
    }
}

/// The line of the end of a download, where `shown` is the path as a developer
/// is shown it.
pub fn finish_line(status: u8, shown: &Option<String>) -> (r: String)
    ensures
        r@ == finish_text(
            status,
            match *shown {
                Some(shown) => Some(shown@),
                None => None,
            },
        ),
{
    let mut line = String::new();
    line.append("finish ");
    line.append(decimal_text(status as u64).as_str());
    line.append(" ");
    match shown {
        Some(shown) => {
            line.append("Some(");
            line.append(shown.as_str());
            line.append(")");
            assert(line@ == finish_text(status, Some(shown@)));
        },
        None => {
            line.append("None");
            assert(line@ == finish_text(status, None));
        },
    }
    line
}

/// The line of arriving bytes names their number: it can be read back from behind
/// the word.
pub proof fn lemma_line_names_the_bytes(display: ProgressCallback, delta: u64, line: String)
    requires
        call_ensures(ProgressCallback::inc, (&display, delta), line),
    ensures
        line@.take(4) == seq!['i', 'n', 'c', ' '],
        number_of(line@.skip(4), u64::MAX as int) == Ok::<int, NumberError>(delta as int),
{
    reveal_strlit("inc ");
    assert(line@.take(4) == seq!['i', 'n', 'c', ' ']);
    assert(line@.skip(4) == decimal(delta as nat));
    lemma_decimal_is_read_back(delta as nat, u64::MAX as int);
}

/// The line of the end names the status, which can be read back from behind the
/// word, and then the path as a developer is shown it, or that there is none.
pub proof fn lemma_line_names_the_end(
    display: ProgressCallback,
    status: u8,
    path: Option<String>,
    line: String,
)
    requires
        call_ensures(ProgressCallback::finish, (&display, status, path), line),
    ensures
        line@.take(7) == seq!['f', 'i', 'n', 'i', 's', 'h', ' '],
        exists|k: int|
            7 < k < line@.len() && #[trigger] line@[k] == ' ' && number_of(
                line@.subrange(7, k),
                u8::MAX as int,
            ) == Ok::<int, NumberError>(status as int) && line@.skip(k + 1) == match path {
                Some(path) => seq!['S', 'o', 'm', 'e', '('] + quoted(path@) + seq![')'],
                None => seq!['N', 'o', 'n', 'e'],
            },
{
    let text = match path {
        Some(path) => Some(quoted(path@)),
        None => None,
    };
    lemma_parts_of_the_line(status, text);
}

/// The line of the end shows the path as it is given: status and path can be told
/// apart, and are those that it was made of.
pub proof fn lemma_line_shows_the_path(status: u8, shown: Option<String>, line: String)
    requires
        call_ensures(finish_line, (status, &shown), line),
    ensures
        line@.take(7) == seq!['f', 'i', 'n', 'i', 's', 'h', ' '],
        exists|k: int|
            7 < k < line@.len() && #[trigger] line@[k] == ' ' && number_of(
                line@.subrange(7, k),
                u8::MAX as int,
            ) == Ok::<int, NumberError>(status as int) && line@.skip(k + 1) == match shown {
                Some(shown) => seq!['S', 'o', 'm', 'e', '('] + shown@ + seq![')'],
                None => seq!['N', 'o', 'n', 'e'],
            },
{
    let text = match shown {
        Some(shown) => Some(shown@),
        None => None,
    };
    lemma_parts_of_the_line(status, text);
}

proof fn lemma_parts_of_the_line(status: u8, shown: Option<Seq<char>>)
    ensures
        ({
            let line = finish_text(status, shown);
            &&& line.take(7) == seq!['f', 'i', 'n', 'i', 's', 'h', ' ']
            &&& exists|k: int|
                7 < k < line.len() && #[trigger] line[k] == ' ' && number_of(
                    line.subrange(7, k),
                    u8::MAX as int,
                ) == Ok::<int, NumberError>(status as int) && line.skip(k + 1) == match shown {
                    Some(shown) => seq!['S', 'o', 'm', 'e', '('] + shown + seq![')'],
                    None => seq!['N', 'o', 'n', 'e'],
                }
        }),
{
    reveal_strlit("finish ");
    reveal_strlit(" ");
    reveal_strlit("Some(");
    reveal_strlit(")");
    reveal_strlit("None");
    lemma_decimal_is_read_back(status as nat, u8::MAX as int);
    lemma_decimal_digits(status as nat);
    let line = finish_text(status, shown);
    let digits = decimal(status as nat);
    let k: int = 7 + digits.len() as int;
    let end = match shown {
        Some(shown) => seq!['S', 'o', 'm', 'e', '('] + shown + seq![')'],
        None => seq!['N', 'o', 'n', 'e'],
    };
    assert(")"@ == seq![')']);
    assert("Some("@ == seq!['S', 'o', 'm', 'e', '(']);
    assert("None"@ == seq!['N', 'o', 'n', 'e']);
    assert(line == "finish "@ + digits + " "@ + end);
    assert(line.take(7) == seq!['f', 'i', 'n', 'i', 's', 'h', ' ']);
    assert(line[k] == ' ');
    assert(line.subrange(7, k) == digits);
    assert(line.skip(k + 1) == end);
}

} // verus!
