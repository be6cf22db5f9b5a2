//! Unsigned decimal numbers as text.
use vstd::prelude::*;

verus! {

/// Why a text is not a number.
#[derive(Clone, Copy, Debug, PartialEq, Eq, Structural)]
pub enum NumberError {
    /// The text is empty.
    Empty,
    /// A character is not a decimal digit.
    InvalidDigit,
    /// The number is larger than the type it is read into.
    Overflow,
}

pub open spec fn is_digit(c: char) -> bool {
    '0' <= c <= '9'
}

pub open spec fn digit_value(c: char) -> int {
    c as int - '0' as int
}

/// The digit that stands for `d`, for `d` below ten.
pub open spec fn digit_char(d: int) -> char {
    (d + '0' as int) as char
}

/// The shortest decimal text of `n`.
pub open spec fn decimal(n: nat) -> Seq<char>
    decreases n,
{
    if n < 10 {
        seq![digit_char(n as int)]
    } else {
        decimal(n / 10).push(digit_char((n % 10) as int))
    }
}

/// The number that a sequence of digits stands for.
pub open spec fn digits_value(s: Seq<char>) -> int
    decreases s.len(),
{
    if s.len() == 0 {
        0
    } else {
        digits_value(s.drop_last()) * 10 + digit_value(s.last())
    }
}

/// Reads digits from the left; the first character that is no digit, or that
/// takes the number above `max`, decides the error.
pub open spec fn read_digits(s: Seq<char>, max: int) -> Result<int, NumberError>
    decreases s.len(),
{
    if s.len() == 0 {
        Ok(0)
    } else {
        match read_digits(s.drop_last(), max) {
            Err(e) => Err(e),
            Ok(v) => if !is_digit(s.last()) {
                Err(NumberError::InvalidDigit)
            } else if v * 10 + digit_value(s.last()) > max {
                Err(NumberError::Overflow)
            } else {
                Ok(v * 10 + digit_value(s.last()))
            },
        }
    }
}

/// The text without the one plus sign that a number may start with.
pub open spec fn unsigned_part(s: Seq<char>) -> Seq<char> {
    if s.len() > 1 && s[0] == '+' {
        s.skip(1)
    } else {
        s
    }
}

/// What reading `s` as a number of at most `max` gives.
pub open spec fn number_of(s: Seq<char>, max: int) -> Result<int, NumberError> {
    if s.len() == 0 {
        Err(NumberError::Empty)
    } else {
        read_digits(unsigned_part(s), max)
    }
}

fn digit_text(d: u64) -> (r: &'static str)
    requires
        d < 10,
    ensures
        r@ == seq![digit_char(d as int)],
{
    proof {
        reveal_strlit("0");
        reveal_strlit("1");
        reveal_strlit("2");
        reveal_strlit("3");
        reveal_strlit("4");
        reveal_strlit("5");
        reveal_strlit("6");
        reveal_strlit("7");
        reveal_strlit("8");
        reveal_strlit("9");
    }
    match d {
        0 => "0",
        1 => "1",
        2 => "2",
        3 => "3",
        4 => "4",
        5 => "5",
        6 => "6",
        7 => "7",
        8 => "8",
        _ => "9",
    }
}

/// Writes `n` in decimal, without leading zeros.
pub fn decimal_text(n: u64) -> (r: String)
    ensures
        r@ == decimal(n as nat),
    decreases n,
{
    if n < 10 {
        let mut text = String::new();
        text.append(digit_text(n));
        text
    } else {
        let mut text = decimal_text(n / 10);
        text.append(digit_text(n % 10));
        text
    }
}

/// Reads an unsigned decimal number of at most `max`: one optional plus sign,
/// then one or more digits and nothing else.
pub fn parse_number(text: &str, max: u64) -> (r: Result<u64, NumberError>)
    ensures
        match number_of(text@, max as int) {
            Ok(v) => r is Ok && r->Ok_0 == v,
            Err(e) => r == Err::<u64, NumberError>(e),
        },
{
    if text.is_empty() {
        return Err(NumberError::Empty);
    }
    let signed: bool = text.get_char(0) == '+' && text.unicode_len() > 1;
    let ghost start: int = if signed { 1 } else { 0 };
    let ghost body = unsigned_part(text@);
    let mut first: bool = true;
    let mut value: u64 = 0;
    for c in it: text.chars()
        invariant
            it.seq() == text@,
            text@.len() > 0,
            first == (it.index() == 0),
            signed == (text@.len() > 1 && text@[0] == '+'),
            start == if signed {
                1int
            } else {
                0
            },
            body == text@.skip(start),
            number_of(text@, max as int) == read_digits(body, max as int),
            read_digits(
                body.take(
                    if it.index() < start {
                        0
                    } else {
                        it.index() - start
                    },
                ),
                max as int,
            ) == Ok::<int, NumberError>(value as int),
            value <= max,
    {
        if !(first && signed) {
            let ghost seen = body.take(it.index() - start + 1);
            assert(seen.drop_last() == body.take(it.index() - start));
            assert(seen.last() == c);
            if c < '0' || c > '9' {
                proof {
                    lemma_error_stays(body, it.index() - start + 1, max as int);
                }
                return Err(NumberError::InvalidDigit);
            }
            let d: u64 = (c as u32 - '0' as u32) as u64;
            if value > max / 10 || d > max - value * 10 {
                proof {
                    lemma_error_stays(body, it.index() - start + 1, max as int);
                }
                return Err(NumberError::Overflow);
            }
            value = value * 10 + d;
        }
        first = false;
    }
    assert(body.take(text@.len() - start) == body);
    Ok(value)
}

/// A prefix that cannot be read decides the error of the whole text.
proof fn lemma_error_stays(s: Seq<char>, n: int, max: int)
    requires
        0 <= n <= s.len(),
        read_digits(s.take(n), max) is Err,
    ensures
        read_digits(s, max) == read_digits(s.take(n), max),
    decreases s.len() - n,
{
    if n == s.len() {
        assert(s.take(n) == s);
    } else {
        assert(s.take(n + 1).drop_last() == s.take(n));
        lemma_error_stays(s, n + 1, max);
    }
}

/// A text without its sign is read as a number exactly where it consists of
/// digits and stands for a number of at most `max`, which is then the result.
pub proof fn lemma_read_digits(s: Seq<char>, max: int)
    requires
        max >= 0,
    ensures
        read_digits(s, max) is Ok <==> (forall|i: int| 0 <= i < s.len() ==> is_digit(s[i]))
            && digits_value(s) <= max,
        read_digits(s, max) is Ok ==> read_digits(s, max)->Ok_0 == digits_value(s),
    decreases s.len(),
{
    if s.len() > 0 {
        let t = s.drop_last();
        lemma_read_digits(t, max);
        assert(forall|i: int| 0 <= i < t.len() ==> t[i] == s[i]);
        if forall|i: int| 0 <= i < s.len() ==> is_digit(s[i]) {
            assert(is_digit(s[s.len() - 1]));
            lemma_digits_value_nonnegative(t);
        }
    }
}

proof fn lemma_digits_value_nonnegative(s: Seq<char>)
    requires
        forall|i: int| 0 <= i < s.len() ==> is_digit(s[i]),
    ensures
        digits_value(s) >= 0,
    decreases s.len(),
{
    if s.len() > 0 {
        let t = s.drop_last();
        assert(forall|i: int| 0 <= i < t.len() ==> t[i] == s[i]);
        assert(is_digit(s[s.len() - 1]));
        lemma_digits_value_nonnegative(t);
    }
}

/// Reading undoes writing: the decimal text of a number that fits is read as
/// that number.
pub proof fn lemma_decimal_is_read_back(n: nat, max: int)
    requires
        n <= max,
    ensures
        number_of(decimal(n), max) == Ok::<int, NumberError>(n as int),
{
    lemma_decimal_digits(n);
    lemma_read_digits(decimal(n), max);
    assert(is_digit(decimal(n)[0]));
    assert(unsigned_part(decimal(n)) == decimal(n));
}

/// Decimal text consists of digits, stands for its number and, but for zero,
/// does not start with a zero.
pub proof fn lemma_decimal_digits(n: nat)
    ensures
        decimal(n).len() > 0,
        forall|i: int| 0 <= i < decimal(n).len() ==> is_digit(#[trigger] decimal(n)[i]),
        digits_value(decimal(n)) == n,
        n > 0 ==> decimal(n)[0] != '0',
    decreases n,
{
    let s = decimal(n);
    if n < 10 {
        assert(s.drop_last() == Seq::<char>::empty());
        assert(digits_value(s.drop_last()) == 0);
    } else {
        lemma_decimal_digits(n / 10);
        assert(s.drop_last() == decimal(n / 10));
    }
}

/// A text that is read as a number consists of digits behind one optional plus
/// sign, and is read as the number that the digits stand for.
pub proof fn lemma_number_is_digits(s: Seq<char>, max: int)
    requires
        max >= 0,
        number_of(s, max) is Ok,
    ensures
        s.len() > 0,
        forall|i: int|
            0 <= i < s.len() ==> is_digit(#[trigger] s[i]) || (i == 0 && s[i] == '+' && s.len()
                > 1),
        number_of(s, max)->Ok_0 == digits_value(
            if s[0] == '+' {
                s.skip(1)
            } else {
                s
            },
        ),
        0 <= number_of(s, max)->Ok_0 <= max,
{
    let part = unsigned_part(s);
    lemma_read_digits(part, max);
    lemma_digits_value_nonnegative(part);
    assert forall|i: int| 0 <= i < s.len() implies is_digit(#[trigger] s[i]) || (i == 0 && s[i]
        == '+' && s.len() > 1) by {
        if s.len() > 1 && s[0] == '+' {
            if i > 0 {
                assert(part[i - 1] == s[i]);
                assert(is_digit(part[i - 1]));
            }
        } else {
            assert(part[i] == s[i]);
        }
    }
    assert(is_digit('+') == false);
}

/// Decimal text is read as its number, with or without a plus sign in front; a
/// number above the limit is too large.
pub proof fn lemma_written_numbers_are_read(
    n: u64,
    max: u64,
    written: String,
    text: &str,
    r: Result<u64, NumberError>,
)
    requires
        call_ensures(decimal_text, (n,), written),
        text@ == written@ || text@ == seq!['+'] + written@,
        call_ensures(parse_number, (text, max), r),
    ensures
        r == if n <= max {
            Ok::<u64, NumberError>(n)
        } else {
            Err::<u64, NumberError>(NumberError::Overflow)
        },
{
    let digits = decimal(n as nat);
    lemma_decimal_digits(n as nat);
    lemma_read_digits(digits, max as int);
    assert((seq!['+'] + digits).skip(1) == digits);
    assert(is_digit(digits[0]));
    lemma_digits_alone_overflow(digits, max as int);
}

/// Digits can be read, or stand for too large a number.
proof fn lemma_digits_alone_overflow(s: Seq<char>, max: int)
    requires
        max >= 0,
        forall|i: int| 0 <= i < s.len() ==> is_digit(s[i]),
    ensures
        read_digits(s, max) is Ok || read_digits(s, max) == Err::<int, NumberError>(
            NumberError::Overflow,
        ),
    decreases s.len(),
{
    if s.len() > 0 {
        let t = s.drop_last();
        assert(forall|i: int| 0 <= i < t.len() ==> t[i] == s[i]);
        assert(is_digit(s[s.len() - 1]));
        lemma_digits_alone_overflow(t, max);
    }
}

/// Which error a text gives. An empty one is empty. For any other, what counts is
/// the first place where a character is no digit or where the digits up to it stand
/// for more than the limit.
pub proof fn lemma_number_errors(
    text: &str,
    max: u64,
    r: Result<u64, NumberError>,
    digits: Seq<char>,
    c: char,
    rest: Seq<char>,
)
    requires
        call_ensures(parse_number, (text, max), r),
    ensures
        r == Err::<u64, NumberError>(NumberError::Empty) <==> text@.len() == 0,
        (forall|i: int| 0 <= i < digits.len() ==> is_digit(#[trigger] digits[i]))
            && digits.len() > 0 && digits_value(digits) <= max && !is_digit(c) && text@ == digits
            + seq![c] + rest ==> r == Err::<u64, NumberError>(NumberError::InvalidDigit),
        (forall|i: int| 0 <= i < digits.len() ==> is_digit(#[trigger] digits[i]))
            && digits_value(digits) > max && text@ == digits + rest ==> r == Err::<
            u64,
            NumberError,
        >(NumberError::Overflow),
        !is_digit(c) && c != '+' && text@ == seq![c] + rest ==> r == Err::<u64, NumberError>(
            NumberError::InvalidDigit,
        ),
        text@ == seq!['+'] ==> r == Err::<u64, NumberError>(NumberError::InvalidDigit),
{
    let s = text@;
    lemma_error_is_not_empty(unsigned_part(s), max as int);
    if (forall|i: int| 0 <= i < digits.len() ==> is_digit(#[trigger] digits[i])) && digits.len()
        > 0 && digits_value(digits) <= max && !is_digit(c) && s == digits + seq![c] + rest {
        assert(s[0] == digits[0]);
        assert(is_digit(digits[0]));
        assert(unsigned_part(s) == s);
        lemma_read_digits(digits, max as int);
        let seen = s.take(digits.len() as int + 1);
        assert(seen.drop_last() == digits);
        assert(seen.last() == c);
        lemma_error_stays(s, digits.len() as int + 1, max as int);
    }
    if (forall|i: int| 0 <= i < digits.len() ==> is_digit(#[trigger] digits[i]))
        && digits_value(digits) > max && s == digits + rest {
        assert(digits.len() > 0);
        assert(s[0] == digits[0]);
        assert(is_digit(digits[0]));
        assert(unsigned_part(s) == s);
        lemma_read_digits(digits, max as int);
        lemma_digits_alone_overflow(digits, max as int);
        assert(s.take(digits.len() as int) == digits);
        lemma_error_stays(s, digits.len() as int, max as int);
    }
    if !is_digit(c) && c != '+' && s == seq![c] + rest {
        assert(s[0] == c);
        assert(unsigned_part(s) == s);
        lemma_first_is_no_digit(s, max as int);
    }
    if s == seq!['+'] {
        lemma_first_is_no_digit(s, max as int);
    }
}

proof fn lemma_error_is_not_empty(s: Seq<char>, max: int)
    ensures
        read_digits(s, max) != Err::<int, NumberError>(NumberError::Empty),
    decreases s.len(),
{
    if s.len() > 0 {
        lemma_error_is_not_empty(s.drop_last(), max);
    }
}

proof fn lemma_first_is_no_digit(s: Seq<char>, max: int)
    requires
        s.len() > 0,
        !is_digit(s[0]),
    ensures
        read_digits(s, max) == Err::<int, NumberError>(NumberError::InvalidDigit),
{
    let seen = s.take(1);
    assert(seen.drop_last() == Seq::<char>::empty());
    assert(read_digits(seen.drop_last(), max) == Ok::<int, NumberError>(0));
    assert(seen.last() == s[0]);
    lemma_error_stays(s, 1, max);
}

/// Numbers are written in the decimal system: a number below ten as one digit, the
/// digits in the order of their characters from `0` to `9`, and the digits of `10 *
/// n + d` are those of `n` and then that of `d`.
pub proof fn lemma_numbers_are_decimal(
    n: u64,
    d: u64,
    whole: String,
    front: String,
    last: String,
)
    requires
        d < 10,
        10 * n + d <= u64::MAX,
        call_ensures(decimal_text, ((10 * n + d) as u64,), whole),
        call_ensures(decimal_text, (n,), front),
        call_ensures(decimal_text, (d,), last),
    ensures
        last@.len() == 1,
        last@[0] as int == '0' as int + d,
        whole@ == if n == 0 {
            last@
        } else {
            front@ + last@
        },
{
    if n > 0 {
        assert((10 * n + d) / 10 == n);
        assert((10 * n + d) % 10 == d as int);
        assert(decimal((10 * n + d) as nat) == decimal(n as nat).push(digit_char(d as int)));
        assert(front@ + last@ == front@.push(last@[0]));
    }
}

/// Digits stand for a number in the decimal system: one digit for its distance from
/// `0`, and one more digit behind others for ten times what those stand for and its
/// own value.
pub proof fn lemma_digits_are_decimal(s: Seq<char>, c: char)
    requires
        is_digit(c),
    ensures
        '0' <= c <= '9',
        digits_value(seq![c]) == c as int - '0' as int,
        digits_value(s.push(c)) == 10 * digits_value(s) + digits_value(seq![c]),
{
    assert(s.push(c).drop_last() == s);
    assert(seq![c].drop_last() == Seq::<char>::empty());
    assert(digits_value(seq![c].drop_last()) == 0);
}

/// Any digits are read as the number that they stand for where it fits, zeros in front
/// of it or not, with or without a plus sign; otherwise it is too large.
pub proof fn lemma_digits_are_read(
    digits: Seq<char>,
    text: &str,
    max: u64,
    r: Result<u64, NumberError>,
)
    requires
        digits.len() > 0,
        forall|i: int| 0 <= i < digits.len() ==> is_digit(#[trigger] digits[i]),
        text@ == digits || text@ == seq!['+'] + digits,
        call_ensures(parse_number, (text, max), r),
    ensures
        r == if digits_value(digits) <= max {
            Ok::<u64, NumberError>(digits_value(digits) as u64)
        } else {
            Err::<u64, NumberError>(NumberError::Overflow)
        },
{
    lemma_read_digits(digits, max as int);
    lemma_digits_value_nonnegative(digits);
    lemma_digits_alone_overflow(digits, max as int);
    assert((seq!['+'] + digits).skip(1) == digits);
    assert(is_digit(digits[0]));
}

} // verus!
