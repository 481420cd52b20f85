//! Parser errors and their positions in the input.

use vstd::prelude::*;
use vstd::string::{to_string_from_display_ensures, StringExecFns};

verus! {

/// `std::io::Error`, carried through and never looked into. Besides failures of
/// a source it carries the errors of accumulators, which it can hold in a box.
#[verifier::external_type_specification]
#[verifier::external_body]
pub struct ExIoError(std::io::Error);

/// The location of a parser error in the input.
#[derive(Debug, Clone, Copy, PartialEq, Eq, Structural)]
pub struct Position {
    /// Absolute byte offset into the input where the error was detected.
    pub byte_offset: usize,
}

impl Position {
    /// The position `delta` bytes further on, or the last one there is.
    pub open spec fn shifted(self, delta: int) -> Position {
        Position {
            byte_offset: if self.byte_offset + delta <= usize::MAX {
                (self.byte_offset + delta) as usize
            } else {
                usize::MAX
            },
        }
    }

    /// Shift the position by `delta` bytes. Used by the scheduler to
    /// translate chunk-local offsets returned by chunk parsers into
    /// absolute offsets.
    pub fn shift(self, delta: usize) -> (r: Self)
        ensures
            r == self.shifted(delta as int),
    {
        Self { byte_offset: self.byte_offset.saturating_add(delta) }
    }
}

/// A CSV parser error.
#[derive(Debug)]
#[non_exhaustive]
pub enum Error {
    /// An I/O error.
    IO(std::io::Error),
    /// The parser configuration is invalid.
    InvalidConfig(&'static str),
    /// Wrong number of fields.
    NumberOfFields {
        /// Field count the callback's arity declares.
        expected: usize,
        /// Field count seen so far. A lower bound if the
        /// record runs past the end of the parser's current buffer.
        found: usize,
        /// Start of the record whose field count was wrong.
        position: Position,
    },
    /// A UTF-8 error.
    Utf8 {
        /// Offset of the invalid byte.
        position: Position,
    },
    /// Quote not at a field boundary.
    InvalidQuote {
        /// Offset of the offending quote byte.
        position: Position,
    },
    /// Unterminated quoted field.
    UnclosedQuote {
        /// Start of the field whose opening quote was never closed.
        position: Position,
    },
    /// Error returned by the user's accumulator function, in the carrier it
    /// was returned in; `into_inner` of the carrier gives it back.
    User(std::io::Error),
}

/// What an accumulator function returns when it fails: an error of this crate
/// that it hands on, or one of its own.
#[derive(Debug)]
pub enum UserError {
    /// An error of this crate, handed back as it is.
    Parser(Error),
    /// Any other failure, boxed with `std::io::Error::other`.
    Other(std::io::Error),
}

impl Error {
    /// What [`Error::from_user`] makes of a failure of the accumulator.
    pub open spec fn of_user(err: UserError) -> Error {
        match err {
            UserError::Parser(inner) => inner,
            UserError::Other(other) => Error::User(other),
        }
    }

    /// Wrap an error returned by the accumulator, unnesting a crate
    /// [`Error`] a callback handed back rather than boxing it in
    /// [`Error::User`].
    pub fn from_user(err: UserError) -> (r: Self)
        ensures
            r == Error::of_user(err),
    {
        match err {
            UserError::Parser(inner) => inner,
            UserError::Other(other) => Error::User(other),
        }
    }

    /// The offset the error points at, if it points at one.
    pub open spec fn at(self) -> Option<usize> {
        match self {
            Error::Utf8 { position } => Some(position.byte_offset),
            Error::InvalidQuote { position } => Some(position.byte_offset),
            Error::UnclosedQuote { position } => Some(position.byte_offset),
            Error::NumberOfFields { position, .. } => Some(position.byte_offset),
            _ => None,
        }
    }

    /// The same error, pointing `base` bytes further on if it points anywhere.
    pub open spec fn moved(self, base: int) -> Error {
        match self {
            Error::Utf8 { position } => Error::Utf8 {
                position: position.shifted(base),
            },
            Error::InvalidQuote { position } => Error::InvalidQuote {
                position: position.shifted(base),
            },
            Error::UnclosedQuote { position } => Error::UnclosedQuote {
                position: position.shifted(base),
            },
            Error::NumberOfFields { expected, found, position } => Error::NumberOfFields {
                expected,
                found,
                position: position.shifted(base),
            },
            other => other,
        }
    }

    /// The position in the input where the error occurred, if available.
    pub fn position(&self) -> (r: Option<&Position>)
        ensures
            r.is_some() == self.at().is_some(),
            r matches Some(p) ==> self.at() == Some(p.byte_offset),
    {
        match self {
            Error::Utf8 { position } => Some(position),
            Error::InvalidQuote { position } => Some(position),
            Error::UnclosedQuote { position } => Some(position),
            Error::NumberOfFields { position, .. } => Some(position),
            _ => None,
        }
    }

    /// Translate a chunk-local error position into an absolute
    /// position by adding `base` to its `byte_offset`.
    pub fn with_base(self, base: usize) -> (r: Self)
        ensures
            r == self.moved(base as int),
            self.at() is None ==> r == self,
            self.at() matches Some(p) ==> p + base <= usize::MAX ==> r.at() == Some(
                (p + base) as usize,
            ),
    {
        match self {
            Error::Utf8 { position } => Error::Utf8 { position: position.shift(base) },
            Error::InvalidQuote { position } => Error::InvalidQuote { position: position.shift(base) },
            Error::UnclosedQuote { position } => Error::UnclosedQuote {
                position: position.shift(base),
            },
            Error::NumberOfFields { expected, found, position } => Error::NumberOfFields {
                expected,
                found,
                position: position.shift(base),
            },
            other => other,
        }
    }
}

impl From<std::io::Error> for Error {
    fn from(err: std::io::Error) -> (r: Self)
    {
        Error::IO(err)
    }
}

impl vstd::std_specs::convert::FromSpecImpl<std::io::Error> for Error {
    open spec fn obeys_from_spec() -> bool {
        true
    }

    open spec fn from_spec(err: std::io::Error) -> Error {
        Error::IO(err)
    }
}

/// Moving a position twice is moving it once by the sum.
pub proof fn moved_is_additive(e: Error, a: int, b: int)
    requires
        0 <= a,
        0 <= b,
    ensures
        e.moved(a).moved(b) == e.moved(a + b),
        e.moved(0) == e,
{
}

/// What came back of an I/O call, as this crate's result: the very error, if it
/// failed.
pub fn lifted<T>(r: std::io::Result<T>) -> (lifted: crate::Result<T>)
    ensures
        lifted == match r {
            Ok(v) => Ok::<T, Error>(v),
            Err(e) => Err::<T, Error>(Error::IO(e)),
        },
{
    match r {
        Ok(v) => Ok(v),
        Err(e) => Err(Error::IO(e)),
    }
}

/// The character of the digit `d`.
pub open spec fn digit(d: nat) -> char {
    seq!['0', '1', '2', '3', '4', '5', '6', '7', '8', '9'][d as int]
}

/// `n` in decimal.
pub open spec fn decimal(n: nat) -> Seq<char>
    decreases n,
{
    if n < 10 {
        seq![digit(n)]
    } else {
        decimal(n / 10).push(digit(n % 10))
    }
}

/// Append the digit `d`.
fn push_digit(text: &mut String, d: usize)
    requires
        d < 10,
    ensures
        final(text)@ == old(text)@.push(digit(d as nat)),
{
    proof {
        reveal_strlit("0");
        reveal_strlit("1");
        reveal_strlit("2");
        reveal_strlit("3");
        reveal_strlit("4");
        reveal_strlit("5");
        reveal_strlit("6");
        reveal_strlit("7");
        reveal_strlit("8");
        reveal_strlit("9");
    }
    let one = match d {
        0 => "0",
        1 => "1",
        2 => "2",
        3 => "3",
        4 => "4",
        5 => "5",
        6 => "6",
        7 => "7",
        8 => "8",
        _ => "9",
    };
    assert(one@ =~= seq![digit(d as nat)]);
    text.append(one);
    assert(text@ =~= old(text)@.push(digit(d as nat)));
}

/// Append `n` in decimal.
pub(crate) fn push_decimal(text: &mut String, n: usize)
    ensures
        final(text)@ == old(text)@ + decimal(n as nat),
    decreases n,
{
    if n >= 10 {
        push_decimal(text, n / 10);
    }
    push_digit(text, n % 10);
    assert(text@ =~= old(text)@ + decimal(n as nat));
}

/// A text that ends with a byte offset.
fn located_text(what: &str, position: &Position) -> (r: String)
    ensures
        r@ == what@ + decimal(position.byte_offset as nat),
{
    let mut text = String::from_str(what);
    push_decimal(&mut text, position.byte_offset);
    text
}

impl Error {
    /// `text` says what the error is.
    pub open spec fn says(self, text: String) -> bool {
        match self {
            Error::IO(e) => to_string_from_display_ensures(&e, text),
            Error::InvalidConfig(m) => text@ == "invalid parser configuration: "@ + m@,
            Error::NumberOfFields { expected, found, position } => text@ == "expected "@ + decimal(
                expected as nat,
            ) + " fields, found "@ + decimal(found as nat) + " in the record at byte "@ + decimal(
                position.byte_offset as nat,
            ),
            Error::Utf8 { position } => text@ == "invalid UTF-8 at byte "@ + decimal(
                position.byte_offset as nat,
            ),
            Error::InvalidQuote { position } => text@
                == "quote not at field boundary at byte "@ + decimal(position.byte_offset as nat),
            Error::UnclosedQuote { position } => text@
                == "unterminated quoted field at byte "@ + decimal(position.byte_offset as nat),
            Error::User(e) => to_string_from_display_ensures(&e, text),
        }
    }

    /// What the error is, in words.
    pub fn message(&self) -> (r: String)
        ensures
            self.says(r),
    {
        match self {
            Error::IO(err) => err.to_string(),
            Error::InvalidConfig(msg) => {
                let mut text = String::from_str("invalid parser configuration: ");
                text.append(msg);
                text
            },
            Error::NumberOfFields { expected, found, position } => {
                let mut text = String::from_str("expected ");
                push_decimal(&mut text, *expected);
                text.append(" fields, found ");
                push_decimal(&mut text, *found);
                text.append(" in the record at byte ");
                push_decimal(&mut text, position.byte_offset);
                text
            },
            Error::Utf8 { position } => located_text("invalid UTF-8 at byte ", position),
            Error::InvalidQuote { position } => located_text(
                "quote not at field boundary at byte ",
                position,
            ),
            Error::UnclosedQuote { position } => located_text(
                "unterminated quoted field at byte ",
                position,
            ),
            Error::User(err) => err.to_string(),
        }
    }
}

/// The number that decimal digits spell.
pub open spec fn spelled_number(text: Seq<char>) -> int
    decreases text.len(),
{
    if text.len() == 0 {
        0
    } else {
        10 * spelled_number(text.drop_last()) + (text.last() as int - '0' as int)
    }
}

/// A number in decimal spells the number, in digits only and without zeros in front.
pub proof fn decimal_spells_the_number(n: nat)
    ensures
        spelled_number(decimal(n)) == n,
        decimal(n).len() > 0,
        forall|i: int| 0 <= i < decimal(n).len() ==> '0' <= #[trigger] decimal(n)[i] <= '9',
        n > 0 ==> decimal(n)[0] != '0',
    decreases n,
{
    let d = if n < 10 {
        n
    } else {
        n % 10
    };
    assert(d == 0 || d == 1 || d == 2 || d == 3 || d == 4 || d == 5 || d == 6 || d == 7 || d == 8
        || d == 9);
    assert(digit(d) as int == '0' as int + d);
    if n >= 10 {
        decimal_spells_the_number(n / 10);
        let before = decimal(n / 10);
        let all = decimal(n);
        assert(all == before.push(digit(d)));
        assert(all.drop_last() =~= before);
        assert forall|i: int| 0 <= i < all.len() implies '0' <= #[trigger] all[i] <= '9' by {
            if i < before.len() {
                assert(all[i] == before[i]);
            }
        }
        assert(all[0] == before[0]);
    } else {
        assert(decimal(n).drop_last() =~= seq![]);
        assert(spelled_number(seq![]) == 0);
    }
}

/// An error that points somewhere says what it is, and where, in decimal.
pub proof fn what_errors_say(e: Error, text: String)
    requires
        e.says(text),
    ensures
        e matches Error::InvalidConfig(m) ==> text@ == "invalid parser configuration: "@ + m@,
        e matches Error::NumberOfFields { expected, found, position } ==> text@ == "expected "@
            + decimal(expected as nat) + " fields, found "@ + decimal(found as nat)
            + " in the record at byte "@ + decimal(position.byte_offset as nat),
        e matches Error::Utf8 { position } ==> text@ == "invalid UTF-8 at byte "@ + decimal(
            position.byte_offset as nat,
        ),
        e matches Error::InvalidQuote { position } ==> text@
            == "quote not at field boundary at byte "@ + decimal(position.byte_offset as nat),
        e matches Error::UnclosedQuote { position } ==> text@
            == "unterminated quoted field at byte "@ + decimal(position.byte_offset as nat),
        e matches Error::IO(x) ==> to_string_from_display_ensures(&x, text),
        e matches Error::User(x) ==> to_string_from_display_ensures(&x, text),
{
}

/// Moving an error on moves where it points, by so many bytes, and changes nothing else
/// about it; an error that points nowhere stays as it is.
pub proof fn moving_moves_the_position_only(e: Error, base: int)
    requires
        0 <= base,
        e.at() matches Some(p) ==> p + base <= usize::MAX,
    ensures
        match e {
            Error::Utf8 { position } => e.at() == Some(position.byte_offset) && e.moved(base) == (
            Error::Utf8 {
                position: Position { byte_offset: (position.byte_offset + base) as usize },
            }),
            Error::InvalidQuote { position } => e.at() == Some(position.byte_offset) && e.moved(
                base,
            ) == (Error::InvalidQuote {
                position: Position { byte_offset: (position.byte_offset + base) as usize },
            }),
            Error::UnclosedQuote { position } => e.at() == Some(position.byte_offset) && e.moved(
                base,
            ) == (Error::UnclosedQuote {
                position: Position { byte_offset: (position.byte_offset + base) as usize },
            }),
            Error::NumberOfFields { expected, found, position } => e.at() == Some(
                position.byte_offset,
            ) && e.moved(base) == (Error::NumberOfFields {
                expected,
                found,
                position: Position { byte_offset: (position.byte_offset + base) as usize },
            }),
            Error::IO(_) | Error::InvalidConfig(_) | Error::User(_) => e.at() is None && e.moved(base)
                == e,
        },
{
}

/// What the accumulator fails with comes back: an error of this crate as it is, any other
/// as the user's.
pub proof fn the_callers_errors_come_back(e: Error, other: std::io::Error)
    ensures
        Error::of_user(UserError::Parser(e)) == e,
        Error::of_user(UserError::Other(other)) == Error::User(other),
{
}

/// A failure to read is reported as one.
pub proof fn failures_to_read_are_said_to_be(err: std::io::Error)
    ensures
        <Error as vstd::std_specs::convert::FromSpec<std::io::Error>>::from_spec(err) == Error::IO(
            err,
        ),
{
}

} // verus!
