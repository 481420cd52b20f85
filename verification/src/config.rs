//! Parser configuration: the dialect of the input and how to run the parse.

use vstd::prelude::*;

use crate::error::Error;
use crate::io::ringbuf::settings::RingBufSettings;

verus! {

/// The record terminator.
#[derive(Debug, Copy, Clone, PartialEq, Eq, Structural)]
pub enum RecordTerminator {
    /// A single byte.
    Byte(u8),
    /// Carriage return + line feed (`\r\n`).
    CRLF,
}

impl Default for RecordTerminator {
    fn default() -> (r: Self)
        ensures
            r == RecordTerminator::CRLF,
    {
        RecordTerminator::CRLF
    }
}

impl RecordTerminator {
    /// Line feed (`\n`) only.
    pub fn lf() -> (r: Self)
        ensures
            r == RecordTerminator::Byte(0x0A),
    {
        RecordTerminator::Byte(0x0A)
    }

    /// Carriage return (`\r`) only.
    pub fn cr() -> (r: Self)
        ensures
            r == RecordTerminator::Byte(0x0D),
    {
        RecordTerminator::Byte(0x0D)
    }

    /// Whether `b` ends a record.
    pub open spec fn ends(self, b: u8) -> bool {
        match self {
            RecordTerminator::Byte(t) => b == t,
            RecordTerminator::CRLF => b == 0x0A || b == 0x0D,
        }
    }

    /// The terminator byte set as a pair: the primary byte and the second one.
    pub open spec fn pair(self) -> (u8, Option<u8>) {
        match self {
            RecordTerminator::Byte(t) => (t, None),
            RecordTerminator::CRLF => (0x0A, Some(0x0D)),
        }
    }

    /// The terminator byte set: the primary byte plus an optional
    /// second one. A maximal run over this set is one record boundary,
    /// which is how the SIMD parser unifies `\r\n`, empty lines and
    /// mixed newlines.
    pub fn bytes(self) -> (r: (u8, Option<u8>))
        ensures
            r == self.pair(),
            forall|b: u8| #[trigger] self.ends(b) <==> (b == r.0 || r.1 == Some(b)),
    {
        match self {
            RecordTerminator::Byte(b) => (b, None),
            RecordTerminator::CRLF => (0x0A, Some(0x0D)),
        }
    }
}

/// Whether `c` is one of the terminator bytes of a pair.
pub fn is_term(c: u8, term_a: u8, term_b: Option<u8>) -> (r: bool)
    ensures
        r == (c == term_a || term_b == Some(c)),
{
    c == term_a || match term_b {
        Some(t) => c == t,
        None => false,
    }
}

/// The I/O backend to use for reading file data.
#[derive(Debug, Copy, Clone, PartialEq, Eq, Structural)]
pub enum IoBackend {
    /// Automatically select based on input type and file size.
    Auto,
    /// Memory-mapped I/O. Each thread gets its own private mapping.
    Mmap,
    /// Ring buffer I/O. Each thread reads into its own buffer via
    /// syscalls. See [`RingBufSettings`] for tuning knobs.
    RingBuf(RingBufSettings),
    /// Per-chunk read from chunk start to file end into a per-thread buffer.
    InMemory,
}

impl Default for IoBackend {
    fn default() -> (r: Self)
        ensures
            r == IoBackend::Auto,
    {
        IoBackend::Auto
    }
}

/// How quote characters are handled.
#[derive(Debug, Copy, Clone, PartialEq, Eq, Structural)]
pub enum QuoteHandling {
    /// Every quote character unconditionally toggles quoting, regardless of
    /// position. Matches the behavior of Postgres and is the most
    /// vectorization-friendly mode.
    Toggle,
    /// RFC 4180-compliant: a quote only opens a quoted field at a field
    /// boundary; a quote anywhere inside an unquoted field is a parse error.
    Strict,
    /// A quote only opens a quoted field when it immediately follows a
    /// delimiter or record start. A quote mid-field is treated as a literal
    /// character. Matches the behavior of rust-csv and Python's `csv` module.
    Literal,
}

impl Default for QuoteHandling {
    fn default() -> (r: Self)
        ensures
            r == QuoteHandling::Toggle,
    {
        QuoteHandling::Toggle
    }
}

/// The chunk parser implementation to use.
#[derive(Debug, Copy, Clone, PartialEq, Eq, Structural)]
pub enum ParserBackend {
    /// Automatically select the fastest parser that supports the current config.
    Auto,
    /// Force the DFA-based parser. Works with any configuration.
    Dfa,
    /// Force the bitmask parser. Errors if the config is unsupported (e.g.
    /// trimming, flexible field counts, certain escape modes).
    Simd,
}

impl Default for ParserBackend {
    fn default() -> (r: Self)
        ensures
            r == ParserBackend::Auto,
    {
        ParserBackend::Auto
    }
}

/// Internal parser configuration.
#[derive(Debug, Copy, Clone)]
pub struct Config {
    pub delimiter: u8,
    pub terminator: RecordTerminator,
    pub quote: Option<u8>,
    pub escape: Option<u8>,
    pub comment: Option<u8>,
    pub has_headers: bool,
    pub concurrency: usize,
    pub chunk_size: usize,
    pub io_buffer_limit: Option<usize>,
    pub quote_handling: QuoteHandling,
    pub flexible: bool,
    pub field_count: Option<usize>,
    pub trim: bool,
    pub io_backend: IoBackend,
    pub parser_backend: ParserBackend,
}

/// What can be wrong with a configuration.
pub enum ConfigFault {
    /// A ring buffer of no size.
    EmptyRing,
    /// A ring buffer larger than its own limit.
    RingOverOwnLimit,
    /// A ring buffer larger than the total limit.
    RingOverTotalLimit,
    /// Two control bytes are the same byte.
    ControlBytesClash,
    /// An escape byte without a quote byte.
    EscapeWithoutQuote,
    /// A control byte outside ASCII.
    NotAscii,
}

impl ConfigFault {
    /// The text a fault is reported with.
    pub open spec fn text(self) -> Seq<char> {
        match self {
            ConfigFault::EmptyRing => "ring buffer buffer_size must be at least 1"@,
            ConfigFault::RingOverOwnLimit => "ring buffer buffer_size must be <= its buffer_limit"@,
            ConfigFault::RingOverTotalLimit =>
                "io_buffer_limit is a total across threads and must leave room for at least one ring buffer"@,
            ConfigFault::ControlBytesClash =>
                "delimiter, terminator, quote, escape, and comment must be distinct"@,
            ConfigFault::EscapeWithoutQuote => "quote must be set when escape is set"@,
            ConfigFault::NotAscii =>
                "delimiter, terminator, quote, escape, and comment must be ASCII in text mode; use `ParserBuilder::bytes` for non-UTF-8 encodings"@,
        }
    }
}

/// Whether `r` reports exactly the fault `fault`, and success if there is none.
pub open spec fn reports(r: crate::Result<()>, fault: Option<ConfigFault>) -> bool {
    match fault {
        None => r == Ok::<(), Error>(()),
        Some(f) => r matches Err(Error::InvalidConfig(m)) && m@ == f.text(),
    }
}

/// A size above a limit that is set; `Some(0)` leaves the limit to be chosen later.
pub open spec fn over(size: usize, limit: Option<usize>) -> bool {
    limit matches Some(l) && l != 0 && size > l
}

impl Config {
    /// The control bytes in the order delimiter, terminator, second
    /// terminator, quote, escape, comment.
    pub open spec fn controls(self) -> Seq<Option<u8>> {
        seq![
            Some(self.delimiter),
            Some(self.terminator.pair().0),
            self.terminator.pair().1,
            self.quote,
            self.escape,
            self.comment,
        ]
    }

    /// Two control bytes are the same byte. Quote and escape may be the same
    /// byte (RFC 4180 doubling).
    pub open spec fn clashes(self, i: int, j: int) -> bool {
        &&& self.controls()[i].is_some()
        &&& self.controls()[i] == self.controls()[j]
        &&& !(i == 3 && j == 4)
    }

    /// No two control bytes are the same byte, quote and escape excepted.
    pub open spec fn distinct(self) -> bool {
        forall|i: int, j: int| 0 <= i < j < 6 ==> !#[trigger] self.clashes(i, j)
    }

    /// The first thing that is wrong with the configuration.
    pub open spec fn fault(self) -> Option<ConfigFault> {
        let ring: Option<RingBufSettings> = match self.io_backend {
            IoBackend::RingBuf(r) => Some(r),
            _ => None,
        };
        if ring matches Some(r) && r.buffer_size == 0 {
            Some(ConfigFault::EmptyRing)
        } else if ring matches Some(r) && over(r.buffer_size, r.buffer_limit) {
            Some(ConfigFault::RingOverOwnLimit)
        } else if ring matches Some(r) && over(r.buffer_size, self.io_buffer_limit) {
            Some(ConfigFault::RingOverTotalLimit)
        } else if !self.distinct() {
            Some(ConfigFault::ControlBytesClash)
        } else if self.escape.is_some() && self.quote.is_none() {
            Some(ConfigFault::EscapeWithoutQuote)
        } else {
            None
        }
    }

    /// The configuration passes [`Config::validate`].
    pub open spec fn valid(self) -> bool {
        self.fault().is_none()
    }

    /// Every control byte is ASCII.
    pub open spec fn ascii(self) -> bool {
        forall|i: int|
            0 <= i < 6 ==> ((#[trigger] self.controls()[i]) matches Some(b) ==> b < 0x80)
    }

    /// The escape byte and the quote byte are the same: a quote is escaped by
    /// doubling it.
    pub open spec fn doubled(self) -> bool {
        self.quote.is_some() && self.quote == self.escape
    }

    /// Check that the configuration is consistent.
    pub fn validate(&self) -> (r: crate::Result<()>)
        ensures
            reports(r, self.fault()),
    {
        if let IoBackend::RingBuf(ring) = self.io_backend {
            if ring.buffer_size == 0 {
                return Err(Error::InvalidConfig("ring buffer buffer_size must be at least 1"));
            }
            // Some(0) is the auto sentinel
            if let Some(limit) = ring.buffer_limit {
                if limit != 0 && ring.buffer_size > limit {
                    return Err(
                        Error::InvalidConfig("ring buffer buffer_size must be <= its buffer_limit"),
                    );
                }
            }
            if let Some(limit) = self.io_buffer_limit {
                if limit != 0 && ring.buffer_size > limit {
                    return Err(
                        Error::InvalidConfig(
                            "io_buffer_limit is a total across threads and must leave room for at least one ring buffer",
                        ),
                    );
                }
            }
        }
        // the "control bytes" that must be distinct
        let (term_a, term_b) = self.terminator.bytes();
        let bytes: [Option<u8>; 6] = [
            Some(self.delimiter),
            Some(term_a),
            term_b,
            self.quote,
            self.escape,
            self.comment,
        ];
        assert(bytes@ =~= self.controls());
        let mut i: usize = 0;
        while i < 6
            invariant
                i <= 6,
                bytes@ == self.controls(),
                self.fault() == None::<ConfigFault> || self.fault() == Some(
                    ConfigFault::ControlBytesClash,
                ) || self.fault() == Some(ConfigFault::EscapeWithoutQuote),
                self.fault() == Some(ConfigFault::ControlBytesClash) <==> !self.distinct(),
                forall|a: int, b: int| 0 <= a < i && a < b < 6 ==> !#[trigger] self.clashes(a, b),
            decreases 6 - i,
        {
            let mut j: usize = i + 1;
            while j < 6
                invariant
                    i < 6,
                    i < j <= 6,
                    bytes@ == self.controls(),
                    self.fault() == Some(ConfigFault::ControlBytesClash) <==> !self.distinct(),
                    forall|b: int| i < b < j ==> !#[trigger] self.clashes(i as int, b),
                decreases 6 - j,
            {
                if let (Some(a), Some(b)) = (bytes[i], bytes[j]) {
                    // quote/escape are commonly the same byte (RFC 4180 doubling)
                    if a == b && !(i == 3 && j == 4) {
                        assert(self.clashes(i as int, j as int));
                        return Err(
                            Error::InvalidConfig(
                                "delimiter, terminator, quote, escape, and comment must be distinct",
                            ),
                        );
                    }
                }
                j += 1;
            }
            i += 1;
        }
        if self.escape.is_some() && self.quote.is_none() {
            return Err(Error::InvalidConfig("quote must be set when escape is set"));
        }
        Ok(())
    }

    /// Check that every control byte is ASCII.
    pub fn validate_ascii_control_bytes(&self) -> (r: crate::Result<()>)
        ensures
            reports(
                r,
                if self.ascii() {
                    None
                } else {
                    Some(ConfigFault::NotAscii)
                },
            ),
    {
        let (term_a, term_b) = self.terminator.bytes();
        let bytes: [Option<u8>; 6] = [
            Some(self.delimiter),
            Some(term_a),
            term_b,
            self.quote,
            self.escape,
            self.comment,
        ];
        assert(bytes@ =~= self.controls());
        let mut i: usize = 0;
        while i < 6
            invariant
                i <= 6,
                bytes@ == self.controls(),
                forall|k: int|
                    0 <= k < i ==> ((#[trigger] self.controls()[k]) matches Some(b) ==> b < 0x80),
            decreases 6 - i,
        {
            if let Some(b) = bytes[i] {
                if b >= 0x80 {
                    assert(self.controls()[i as int] == Some(b));
                    return Err(
                        Error::InvalidConfig(
                            "delimiter, terminator, quote, escape, and comment must be ASCII in text mode; use `ParserBuilder::bytes` for non-UTF-8 encodings",
                        ),
                    );
                }
            }
            i += 1;
        }
        Ok(())
    }
}

/// What [`Config::default`] returns.
pub open spec fn default_config() -> Config {
    Config {
        delimiter: 0x2C,
        terminator: RecordTerminator::CRLF,
        quote: Some(0x22),
        escape: Some(0x22),
        comment: None,
        has_headers: true,
        concurrency: 0,
        chunk_size: 0,
        io_buffer_limit: Some(0),
        quote_handling: QuoteHandling::Toggle,
        flexible: false,
        field_count: None,
        trim: false,
        io_backend: IoBackend::Auto,
        parser_backend: ParserBackend::Auto,
    }
}

impl Default for Config {
    fn default() -> (r: Self)
        ensures
            r == default_config(),
    {
        Self {
            delimiter: 0x2C,
            terminator: RecordTerminator::default(),
            quote: Some(0x22),
            escape: Some(0x22),
            comment: None,
            has_headers: true,
            // 0 means "auto-detect"
            concurrency: 0,
            // 0 means "auto-detect".
            chunk_size: 0,
            // Some(0) means "auto-detect"
            io_buffer_limit: Some(0),
            quote_handling: QuoteHandling::default(),
            flexible: false,
            // set by the parse functions
            field_count: None,
            trim: false,
            io_backend: IoBackend::default(),
            parser_backend: ParserBackend::default(),
        }
    }
}

/// Distinct control bytes, named.
pub proof fn distinct_bytes(c: Config)
    requires
        c.distinct(),
    ensures
        c.quote != Some(c.delimiter),
        !c.terminator.ends(c.delimiter),
        c.quote matches Some(q) ==> !c.terminator.ends(q),
        c.quote is Some ==> c.comment != c.quote,
{
    assert(!c.clashes(0, 1));
    assert(!c.clashes(0, 2));
    assert(!c.clashes(0, 3));
    assert(!c.clashes(1, 3));
    assert(!c.clashes(2, 3));
    assert(!c.clashes(3, 5));
    assert(c.controls()[0] == Some(c.delimiter));
    assert(c.controls()[1] == Some(c.terminator.pair().0));
    assert(c.controls()[2] == c.terminator.pair().1);
    assert(c.controls()[3] == c.quote);
    assert(c.controls()[5] == c.comment);
}

/// The default configuration is valid, and fit for text.
pub proof fn default_config_is_valid()
    ensures
        default_config().valid(),
        default_config().ascii(),
{
}

/// `b` ends a record.
pub open spec fn ends_record(t: RecordTerminator, b: u8) -> bool {
    match t {
        RecordTerminator::Byte(end) => b == end,
        RecordTerminator::CRLF => b == 0x0A || b == 0x0D,
    }
}

/// The bytes that end a record are the one that was chosen, or both line feed and carriage
/// return.
pub proof fn terminators_are_their_bytes(t: RecordTerminator, b: u8)
    ensures
        t.ends(b) == ends_record(t, b),
        t.ends(b) == (b == t.pair().0 || t.pair().1 == Some(b)),
{
}

/// The control bytes are told apart: the delimiter, the bytes that end a record, the quote
/// and the comment byte differ from each other, and the escape byte differs from all of
/// them or is the quote.
pub open spec fn told_apart(c: Config) -> bool {
    &&& !ends_record(c.terminator, c.delimiter)
    &&& c.quote matches Some(q) ==> q != c.delimiter && !ends_record(c.terminator, q)
    &&& c.comment matches Some(k) ==> k != c.delimiter && !ends_record(c.terminator, k) && c.quote
        != Some(k)
    &&& c.escape matches Some(e) ==> c.quote == Some(e) || (e != c.delimiter && !ends_record(
        c.terminator,
        e,
    ) && c.comment != Some(e))
}

/// Which control bytes clash is a matter of the bytes.
pub proof fn distinct_means_told_apart(c: Config)
    ensures
        c.distinct() == told_apart(c),
{
    let s = c.controls();
    assert(s[0] == Some(c.delimiter));
    assert(s[1] == Some(c.terminator.pair().0));
    assert(s[2] == c.terminator.pair().1);
    assert(s[3] == c.quote);
    assert(s[4] == c.escape);
    assert(s[5] == c.comment);
    if c.distinct() {
        assert(!c.clashes(0, 1) && !c.clashes(0, 2) && !c.clashes(0, 3) && !c.clashes(0, 4)
            && !c.clashes(0, 5));
        assert(!c.clashes(1, 3) && !c.clashes(1, 4) && !c.clashes(1, 5));
        assert(!c.clashes(2, 3) && !c.clashes(2, 4) && !c.clashes(2, 5));
        assert(!c.clashes(3, 5) && !c.clashes(4, 5));
    }
    if told_apart(c) {
        assert forall|i: int, j: int| 0 <= i < j < 6 implies !#[trigger] c.clashes(i, j) by {
            assert(i == 0 || i == 1 || i == 2 || i == 3 || i == 4);
            assert(j == 1 || j == 2 || j == 3 || j == 4 || j == 5);
        }
    }
}

/// A configuration is accepted just if its control bytes are told apart, it has a quote
/// wherever it has an escape, and a ring buffer that it asks for is of some size and
/// within both limits, where these are set. Nothing else is refused.
pub proof fn what_is_accepted(c: Config)
    ensures
        c.valid() <==> {
            &&& told_apart(c)
            &&& c.escape is Some ==> c.quote is Some
            &&& c.io_backend matches IoBackend::RingBuf(ring) ==> {
                &&& ring.buffer_size > 0
                &&& ring.buffer_limit matches Some(l) ==> l == 0 || ring.buffer_size <= l
                &&& c.io_buffer_limit matches Some(l) ==> l == 0 || ring.buffer_size <= l
            }
        },
{
    distinct_means_told_apart(c);
}

/// What is refused is refused with the first of these that holds.
pub proof fn what_is_said_of_a_fault(c: Config)
    ensures
        c.fault() matches Some(f) ==> f.text() == (match c.io_backend {
            IoBackend::RingBuf(ring) => if ring.buffer_size == 0 {
                "ring buffer buffer_size must be at least 1"@
            } else if ring.buffer_limit is Some && ring.buffer_limit->0 != 0 && ring.buffer_size
                > ring.buffer_limit->0 {
                "ring buffer buffer_size must be <= its buffer_limit"@
            } else if c.io_buffer_limit is Some && c.io_buffer_limit->0 != 0 && ring.buffer_size
                > c.io_buffer_limit->0 {
                "io_buffer_limit is a total across threads and must leave room for at least one ring buffer"@
            } else if !told_apart(c) {
                "delimiter, terminator, quote, escape, and comment must be distinct"@
            } else {
                "quote must be set when escape is set"@
            },
            _ => if !told_apart(c) {
                "delimiter, terminator, quote, escape, and comment must be distinct"@
            } else {
                "quote must be set when escape is set"@
            },
        }),
{
    distinct_means_told_apart(c);
}

/// A dialect is fit for text just if none of its control bytes is above 0x7F.
pub proof fn what_is_ascii(c: Config)
    ensures
        c.ascii() <==> {
            &&& c.delimiter <= 0x7F
            &&& c.terminator matches RecordTerminator::Byte(t) ==> t <= 0x7F
            &&& c.quote matches Some(q) ==> q <= 0x7F
            &&& c.escape matches Some(e) ==> e <= 0x7F
            &&& c.comment matches Some(k) ==> k <= 0x7F
        },
        ConfigFault::NotAscii.text()
            == "delimiter, terminator, quote, escape, and comment must be ASCII in text mode; use `ParserBuilder::bytes` for non-UTF-8 encodings"@,
{
    let s = c.controls();
    assert(s[0] == Some(c.delimiter));
    assert(s[1] == Some(c.terminator.pair().0));
    assert(s[2] == c.terminator.pair().1);
    assert(s[3] == c.quote);
    assert(s[4] == c.escape);
    assert(s[5] == c.comment);
    if c.delimiter <= 0x7F && (c.terminator matches RecordTerminator::Byte(t) ==> t <= 0x7F) && (
    c.quote matches Some(q) ==> q <= 0x7F) && (c.escape matches Some(e) ==> e <= 0x7F) && (
    c.comment matches Some(k) ==> k <= 0x7F) {
        assert forall|i: int| 0 <= i < 6 implies ((#[trigger] s[i]) matches Some(b) ==> b
            < 0x80) by {
            assert(i == 0 || i == 1 || i == 2 || i == 3 || i == 4 || i == 5);
        }
    }
}

/// By default fields are separated by commas, records by line feeds, carriage returns or
/// both, quotes are double quotes and are escaped by doubling them, every quote toggles,
/// the first record is a header, there are no comments, nothing is trimmed, the number of
/// fields is the callback's, and the rest is chosen later.
pub proof fn the_default_dialect()
    ensures
        ({
            let c = default_config();
            &&& c.delimiter == 0x2C
            &&& c.terminator == RecordTerminator::CRLF
            &&& c.quote == Some(0x22u8)
            &&& c.escape == Some(0x22u8)
            &&& c.comment is None
            &&& c.has_headers
            &&& c.quote_handling == QuoteHandling::Toggle
            &&& !c.flexible
            &&& c.field_count is None
            &&& !c.trim
            &&& c.io_backend == IoBackend::Auto
            &&& c.parser_backend == ParserBackend::Auto
            &&& c.concurrency == 0
            &&& c.chunk_size == 0
            &&& c.io_buffer_limit == Some(0usize)
            &&& c.valid()
            &&& c.ascii()
        }),
{
    let c = default_config();
    what_is_accepted(c);
    what_is_ascii(c);
}

} // verus!
