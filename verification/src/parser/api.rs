//! The parser that callers hold: a configuration that has been checked, and the
//! ways to run it.

use core::marker::PhantomData;

use vstd::prelude::*;

use super::fold::{answers, answers_by_slice, contents, Accumulator};
use super::grammar::Record;
use super::output::Output;
use super::simd::{simd_objection, simd_supports};
use crate::config::{
    default_config, told_apart, what_is_accepted, what_is_ascii, Config, ConfigFault, IoBackend,
    ParserBackend, RecordTerminator,
};
use crate::error::{Error, Position, UserError};
use crate::io::{FileInput, Source};
use crate::scheduler::dispatch::{
    file_access, file_backend, parse_returns, slice_access, slice_backend, stream_access,
    stream_returns, Scheduler,
};
use crate::scheduler::resolve::{bitmask_reads, what_the_bitmask_parser_is_refused_for};
use crate::sys::Host;

verus! {

/// Marker type: fields are handed to the callback as a fixed-size array `[&T; N]` (default).
#[derive(Debug, Copy, Clone)]
pub struct Arity;

/// Marker type: fields are handed to the callback as a slice `&[&T]`.
#[derive(Debug, Copy, Clone)]
pub struct Variadic;

/// How the number of fields of a record is known.
pub trait FieldMode {
    /// Whether it is fixed by the accumulator.
    spec fn fixed() -> bool;

    /// Whether it is fixed by the accumulator.
    fn is_fixed() -> (r: bool)
        ensures
            r == Self::fixed(),
    ;
}

impl FieldMode for Arity {
    open spec fn fixed() -> bool {
        true
    }

    fn is_fixed() -> (r: bool) {
        true
    }
}

impl FieldMode for Variadic {
    open spec fn fixed() -> bool {
        false
    }

    fn is_fixed() -> (r: bool) {
        false
    }
}

/// Fields are validated as UTF-8 and handed out as `&str` (default).
pub type Text = str;

/// Fields are raw bytes, no UTF-8 validation. For non-UTF-8 encodings.
pub type Bytes = [u8];

/// An accumulator that takes the fields as an array.
pub struct ByArity<A, const N: usize>(pub A);

/// The answer to a record that does not have the `expected` number of fields. The
/// parser verifies the arity, so no accumulator gets to see such a record.
pub open spec fn wrong_arity(expected: usize, found: int) -> UserError {
    UserError::Parser(
        Error::NumberOfFields {
            expected,
            found: found as usize,
            position: Position { byte_offset: 0 },
        },
    )
}

impl<
    S,
    O: Output + ?Sized,
    A: Fn(S, [&O; N]) -> Result<S, UserError>,
    const N: usize,
> Accumulator<S, O> for ByArity<A, N> {
    open spec fn answers(&self, before: S, record: Record, answer: Result<S, UserError>) -> bool {
        if N > 0 && record.len() == N {
            exists|fields: [&O; N]| #[trigger]
                call_ensures(self.0, (before, fields), answer) && contents(fields@) == record
        } else {
            answer == Err::<S, UserError>(wrong_arity(N, record.len() as int))
        }
    }

    open spec fn takes_all(&self) -> bool {
        forall|s: S, fields: [&O; N]| call_requires(self.0, (s, fields))
    }

    fn take(&self, before: S, fields: &[&O]) -> (r: Result<S, UserError>) {
        match fields_as_array::<O, N>(fields) {
            Some(array) => {
                let r = (self.0)(before, array);
                assert(contents(array@) == contents(fields@));
                r
            },
            None => Err(
                UserError::Parser(
                    Error::NumberOfFields {
                        expected: N,
                        found: fields.len(),
                        position: Position { byte_offset: 0 },
                    },
                ),
            ),
        }
    }
}

/// What a function answers as an accumulator is what it returns for fields that hold
/// the record, if there are as many as it takes.
pub open spec fn answers_by_array<
    S,
    O: Output + ?Sized,
    A: Fn(S, [&O; N]) -> Result<S, UserError>,
    const N: usize,
>(acc: A) -> bool {
    forall|before: S, record: Record, answer: Result<S, UserError>|
        #![trigger answers::<S, O, ByArity<A, N>>(ByArity(acc), before, record, answer)]
        answers::<S, O, ByArity<A, N>>(ByArity(acc), before, record, answer) <==> if N > 0
            && record.len() == N {
            exists|fields: [&O; N]| #[trigger]
                call_ensures(acc, (before, fields), answer) && contents(fields@) == record
        } else {
            answer == Err::<S, UserError>(wrong_arity(N, record.len() as int))
        }
}

/// A function that takes the fields as an array answers by what it returns.
pub proof fn arrays_answer<
    S,
    O: Output + ?Sized,
    A: Fn(S, [&O; N]) -> Result<S, UserError>,
    const N: usize,
>(acc: A)
    ensures
        answers_by_array::<S, O, A, N>(acc),
{
    assert forall|before: S, record: Record, answer: Result<S, UserError>|
        #![trigger answers::<S, O, ByArity<A, N>>(ByArity(acc), before, record, answer)]
        answers::<S, O, ByArity<A, N>>(ByArity(acc), before, record, answer) <==> if N > 0
            && record.len() == N {
            exists|fields: [&O; N]| #[trigger]
                call_ensures(acc, (before, fields), answer) && contents(fields@) == record
        } else {
            answer == Err::<S, UserError>(wrong_arity(N, record.len() as int))
        } by {
        let w = ByArity::<A, N>(acc);
        assert(w.0 == acc);
        if N > 0 && record.len() == N {
            if <ByArity<A, N> as Accumulator<S, O>>::answers(&w, before, record, answer) {
                let fields = choose|fields: [&O; N]| #[trigger]
                    call_ensures(w.0, (before, fields), answer) && contents(fields@) == record;
                assert(call_ensures(acc, (before, fields), answer));
            }
        }
    }
}

/// A slice of fields as a fixed-size array of fields.
fn fields_as_array<'a, O: Output + ?Sized, const N: usize>(fields: &[&'a O]) -> (r: Option<
    [&'a O; N],
>)
    ensures
        r is Some <==> N > 0 && fields@.len() == N,
        r matches Some(array) ==> array@ == fields@,
{
    if N == 0 || fields.len() != N {
        return None;
    }
    let mut array: [&'a O; N] = [fields[0]; N];
    let mut i: usize = 0;
    while i < N
        invariant
            i <= N,
            fields@.len() == N,
            array@.len() == N,
            forall|j: int| 0 <= j < i ==> array@[j] == fields@[j],
        decreases N - i,
    {
        array[i] = fields[i];
        i += 1;
    }
    assert(array@ =~= fields@);
    Some(array)
}

/// The CSV parser, parameterized by field count mode and encoding.
pub struct Parser<Mode = Arity, Encoding: ?Sized = Text> {
    config: Config,
    host: Host,
    mode: PhantomData<Mode>,
    encoding: PhantomData<Encoding>,
}

/// The configuration to ask a backend about before records have been seen: a
/// field count that is fixed later is as good as any.
pub open spec fn probe_of(config: Config, fixed: bool) -> Config {
    if fixed && config.field_count is None {
        with_arity(config, 1)
    } else {
        config
    }
}

/// What building a parser from `config` reports, if it does not succeed.
pub open spec fn build_fault<Mode: FieldMode, Encoding: Output + ?Sized>(config: Config) -> Option<
    Seq<char>,
> {
    if config.fault() is Some {
        Some(config.fault()->0.text())
    } else if Encoding::textual() && !config.ascii() {
        Some(ConfigFault::NotAscii.text())
    } else if config.parser_backend == ParserBackend::Simd {
        simd_objection(probe_of(config, Mode::fixed()))
    } else {
        None
    }
}

/// Construct a parser from a `Config`, validating it first.
pub fn try_from_config<Mode: FieldMode, Encoding: Output + ?Sized>(config: Config) -> (r:
    crate::Result<Parser<Mode, Encoding>>)
    ensures
        match build_fault::<Mode, Encoding>(config) {
            None => r matches Ok(p) && p.wf() && p.config() == config && p.host()
                == Host::unknown(),
            Some(why) => r matches Err(Error::InvalidConfig(m)) && m@ == why,
        },
{
    match config.validate() {
        Ok(_) => {},
        Err(e) => {
            return Err(e);
        },
    }
    if Encoding::requires_ascii_control_bytes() {
        match config.validate_ascii_control_bytes() {
            Ok(_) => {},
            Err(e) => {
                return Err(e);
            },
        }
    }
    if config.parser_backend == ParserBackend::Simd {
        let mut probe = config;
        if Mode::is_fixed() && probe.field_count.is_none() {
            probe.field_count = Some(1);
        }
        if let Err(why) = simd_supports(&probe) {
            return Err(Error::InvalidConfig(why));
        }
    }
    Ok(
        Parser { config, host: Host::default(), mode: PhantomData, encoding: PhantomData },
    )
}

impl<Mode: FieldMode, Encoding: Output + ?Sized> Parser<Mode, Encoding> {
    /// The configuration.
    pub closed spec fn config(self) -> Config {
        self.config
    }

    /// The machine the parser runs on.
    pub closed spec fn host(self) -> Host {
        self.host
    }

    /// The configuration has been checked.
    pub open spec fn wf(self) -> bool {
        build_fault::<Mode, Encoding>(self.config()) is None && self.host().wf()
    }

    /// The same parser, for the machine `host`.
    pub fn with_host(self, host: Host) -> (r: Self)
        ensures
            r.config() == self.config(),
            r.host() == host,
    {
        Parser { config: self.config, host, mode: PhantomData, encoding: PhantomData }
    }
}

impl Default for Parser<Arity, Text> {
    fn default() -> (r: Self)
        ensures
            r.wf(),
            r.config() == default_config(),
            r.host() == Host::unknown(),
    {
        Self::new()
    }
}

/// The configuration, for records of `n` fields.
pub open spec fn with_arity(c: Config, n: usize) -> Config {
    Config { field_count: Some(n), ..c }
}

impl<Encoding: Output + ?Sized> Parser<Arity, Encoding> {
    /// The config, with the field count pinned to the callback's arity.
    fn arity_config<const N: usize>(&self) -> (r: Config)
        ensures
            r == with_arity(self.config(), N),
    {
        let mut config = self.config;
        config.field_count = Some(N);
        config
    }
}

/// How many fields a record has is no matter of validity.
proof fn arity_is_valid(c: Config, n: usize)
    ensures
        with_arity(c, n).valid() == c.valid(),
        with_arity(c, n).ascii() == c.ascii(),
{
    let d = with_arity(c, n);
    assert(d.controls() == c.controls());
    assert forall|i: int, j: int| #[trigger] d.clashes(i, j) == c.clashes(i, j) by {}
    if c.distinct() {
        assert forall|i: int, j: int| 0 <= i < j < 6 implies !#[trigger] d.clashes(i, j) by {
            assert(!c.clashes(i, j));
        }
    }
    if d.distinct() {
        assert forall|i: int, j: int| 0 <= i < j < 6 implies !#[trigger] c.clashes(i, j) by {
            assert(!d.clashes(i, j));
        }
    }
    assert(d.ascii() == c.ascii());
}

impl Parser<Arity, Text> {
    /// Construct a parser with default settings.
    ///
    /// The default config is statically known to be valid, so this
    /// is infallible. Use `ParserBuilder` for custom settings.
    pub fn new() -> (r: Self)
        ensures
            r.wf(),
            r.config() == default_config(),
            r.host() == Host::unknown(),
    {
        let config = Config::default();
        proof {
            crate::config::default_config_is_valid();
        }
        Parser { config, host: Host::default(), mode: PhantomData, encoding: PhantomData }
    }
}

impl Parser<Arity, Text> {
    /// Parse a CSV file with a fixed number of fields per record.
    ///
    /// `N` is inferred from the closure, and the field count of every record is
    /// checked against it.
    pub fn parse<
        F: FileInput,
        S,
        I: Fn() -> S,
        A: Fn(S, [&str; N]) -> Result<S, UserError>,
        M: FnOnce(Vec<S>) -> R,
        R,
        const N: usize,
    >(&mut self, file: &F, init: I, acc: A, merge: M) -> (r: crate::Result<R>)
        requires
            old(self).wf(),
            file.content().len() < usize::MAX,
            call_requires(init, ()),
            forall|s: S, fields: [&str; N]| call_requires(acc, (s, fields)),
            forall|states: Vec<S>| call_requires(merge, (states,)),
        ensures
            *final(self) == *old(self),
            answers_by_array::<S, str, A, N>(acc),
            parse_returns::<S, str, ByArity<A, N>, I, M, R>(
                with_arity(old(self).config(), N),
                old(self).host(),
                file.content(),
                file_backend(with_arity(old(self).config(), N), file.content().len() as int),
                file_access(*file, old(self).host()),
                ByArity(acc),
                init,
                merge,
                r,
            ) || (!file.sized() && (r matches Err(e) && e is IO)),
    {
        proof {
            arity_is_valid(self.config, N);
            arrays_answer::<S, str, A, N>(acc);
        }
        let scheduler = Scheduler::with_host(self.arity_config::<N>(), self.host);
        scheduler.run::<S, str, ByArity<A, N>, I, M, R, F>(file, init, ByArity::<A, N>(acc), merge)
    }

    /// Parse CSV from any source with a fixed number of fields per record.
    ///
    /// Sequential — for inputs without random access
    /// (pipes, sockets, decompressors).
    pub fn parse_stream<
        SRC: Source,
        S,
        I: FnOnce() -> S,
        A: Fn(S, [&str; N]) -> Result<S, UserError>,
        M: FnOnce(Vec<S>) -> R,
        R,
        const N: usize,
    >(&mut self, reader: SRC, init: I, acc: A, merge: M) -> (r: crate::Result<R>)
        requires
            old(self).wf(),
            reader.pending().len() < usize::MAX,
            call_requires(init, ()),
            forall|s: S, fields: [&str; N]| call_requires(acc, (s, fields)),
            forall|states: Vec<S>| call_requires(merge, (states,)),
        ensures
            *final(self) == *old(self),
            answers_by_array::<S, str, A, N>(acc),
            stream_returns::<S, str, ByArity<A, N>, I, M, R>(
                with_arity(old(self).config(), N),
                reader.pending(),
                stream_access(with_arity(old(self).config(), N), old(self).host(), reader),
                ByArity(acc),
                init,
                merge,
                r,
            ),
    {
        proof {
            arity_is_valid(self.config, N);
            arrays_answer::<S, str, A, N>(acc);
        }
        let scheduler = Scheduler::with_host(self.arity_config::<N>(), self.host);
        scheduler.run_stream::<S, str, ByArity<A, N>, I, M, R, SRC>(reader, init, ByArity::<A, N>(acc), merge)
    }

    /// Parse CSV already in memory, with a fixed number of fields per record.
    ///
    /// The parser writes into the buffer it parses, so the bytes are copied
    /// rather than parsed in place.
    pub fn parse_slice<
        S,
        I: Fn() -> S,
        A: Fn(S, [&str; N]) -> Result<S, UserError>,
        M: FnOnce(Vec<S>) -> R,
        R,
        const N: usize,
    >(&mut self, data: &[u8], init: I, acc: A, merge: M) -> (r: crate::Result<R>)
        requires
            old(self).wf(),
            data@.len() < usize::MAX,
            call_requires(init, ()),
            forall|s: S, fields: [&str; N]| call_requires(acc, (s, fields)),
            forall|states: Vec<S>| call_requires(merge, (states,)),
        ensures
            *final(self) == *old(self),
            answers_by_array::<S, str, A, N>(acc),
            parse_returns::<S, str, ByArity<A, N>, I, M, R>(
                with_arity(old(self).config(), N),
                old(self).host(),
                data@,
                slice_backend(),
                slice_access(old(self).host()),
                ByArity(acc),
                init,
                merge,
                r,
            ),
    {
        proof {
            arity_is_valid(self.config, N);
            arrays_answer::<S, str, A, N>(acc);
        }
        let scheduler = Scheduler::with_host(self.arity_config::<N>(), self.host);
        scheduler.run_slice::<S, str, ByArity<A, N>, I, M, R>(data, init, ByArity::<A, N>(acc), merge)
    }
}

impl Parser<Arity, Bytes> {
    /// Parse a CSV file with a fixed number of raw byte fields per record.
    pub fn parse<
        F: FileInput,
        S,
        I: Fn() -> S,
        A: Fn(S, [&[u8]; N]) -> Result<S, UserError>,
        M: FnOnce(Vec<S>) -> R,
        R,
        const N: usize,
    >(&mut self, file: &F, init: I, acc: A, merge: M) -> (r: crate::Result<R>)
        requires
            old(self).wf(),
            file.content().len() < usize::MAX,
            call_requires(init, ()),
            forall|s: S, fields: [&[u8]; N]| call_requires(acc, (s, fields)),
            forall|states: Vec<S>| call_requires(merge, (states,)),
        ensures
            *final(self) == *old(self),
            answers_by_array::<S, [u8], A, N>(acc),
            parse_returns::<S, [u8], ByArity<A, N>, I, M, R>(
                with_arity(old(self).config(), N),
                old(self).host(),
                file.content(),
                file_backend(with_arity(old(self).config(), N), file.content().len() as int),
                file_access(*file, old(self).host()),
                ByArity(acc),
                init,
                merge,
                r,
            ) || (!file.sized() && (r matches Err(e) && e is IO)),
    {
        proof {
            arity_is_valid(self.config, N);
            arrays_answer::<S, [u8], A, N>(acc);
        }
        let scheduler = Scheduler::with_host(self.arity_config::<N>(), self.host);
        scheduler.run::<S, [u8], ByArity<A, N>, I, M, R, F>(file, init, ByArity::<A, N>(acc), merge)
    }

    /// Parse raw byte fields from any source, fixed field count per record.
    pub fn parse_stream<
        SRC: Source,
        S,
        I: FnOnce() -> S,
        A: Fn(S, [&[u8]; N]) -> Result<S, UserError>,
        M: FnOnce(Vec<S>) -> R,
        R,
        const N: usize,
    >(&mut self, reader: SRC, init: I, acc: A, merge: M) -> (r: crate::Result<R>)
        requires
            old(self).wf(),
            reader.pending().len() < usize::MAX,
            call_requires(init, ()),
            forall|s: S, fields: [&[u8]; N]| call_requires(acc, (s, fields)),
            forall|states: Vec<S>| call_requires(merge, (states,)),
        ensures
            *final(self) == *old(self),
            answers_by_array::<S, [u8], A, N>(acc),
            stream_returns::<S, [u8], ByArity<A, N>, I, M, R>(
                with_arity(old(self).config(), N),
                reader.pending(),
                stream_access(with_arity(old(self).config(), N), old(self).host(), reader),
                ByArity(acc),
                init,
                merge,
                r,
            ),
    {
        proof {
            arity_is_valid(self.config, N);
            arrays_answer::<S, [u8], A, N>(acc);
        }
        let scheduler = Scheduler::with_host(self.arity_config::<N>(), self.host);
        scheduler.run_stream::<S, [u8], ByArity<A, N>, I, M, R, SRC>(reader, init, ByArity::<A, N>(acc), merge)
    }

    /// Parse in-memory CSV as raw byte fields, fixed field count per record.
    pub fn parse_slice<
        S,
        I: Fn() -> S,
        A: Fn(S, [&[u8]; N]) -> Result<S, UserError>,
        M: FnOnce(Vec<S>) -> R,
        R,
        const N: usize,
    >(&mut self, data: &[u8], init: I, acc: A, merge: M) -> (r: crate::Result<R>)
        requires
            old(self).wf(),
            data@.len() < usize::MAX,
            call_requires(init, ()),
            forall|s: S, fields: [&[u8]; N]| call_requires(acc, (s, fields)),
            forall|states: Vec<S>| call_requires(merge, (states,)),
        ensures
            *final(self) == *old(self),
            answers_by_array::<S, [u8], A, N>(acc),
            parse_returns::<S, [u8], ByArity<A, N>, I, M, R>(
                with_arity(old(self).config(), N),
                old(self).host(),
                data@,
                slice_backend(),
                slice_access(old(self).host()),
                ByArity(acc),
                init,
                merge,
                r,
            ),
    {
        proof {
            arity_is_valid(self.config, N);
            arrays_answer::<S, [u8], A, N>(acc);
        }
        let scheduler = Scheduler::with_host(self.arity_config::<N>(), self.host);
        scheduler.run_slice::<S, [u8], ByArity<A, N>, I, M, R>(data, init, ByArity::<A, N>(acc), merge)
    }
}

impl Parser<Variadic, Text> {
    /// Parse a CSV file with a variable number of fields per record.
    pub fn parse<
        F: FileInput,
        S,
        I: Fn() -> S,
        A: Fn(S, &[&str]) -> Result<S, UserError>,
        M: FnOnce(Vec<S>) -> R,
        R,
    >(&mut self, file: &F, init: I, acc: A, merge: M) -> (r: crate::Result<R>)
        requires
            old(self).wf(),
            file.content().len() < usize::MAX,
            call_requires(init, ()),
            forall|s: S, fields: &[&str]| call_requires(acc, (s, fields)),
            forall|states: Vec<S>| call_requires(merge, (states,)),
        ensures
            *final(self) == *old(self),
            answers_by_slice::<S, str, A>(acc),
            parse_returns::<S, str, A, I, M, R>(
                old(self).config(),
                old(self).host(),
                file.content(),
                file_backend(old(self).config(), file.content().len() as int),
                file_access(*file, old(self).host()),
                acc,
                init,
                merge,
                r,
            ) || (!file.sized() && (r matches Err(e) && e is IO)),
    {
        let scheduler = Scheduler::with_host(self.config, self.host);
        scheduler.run::<S, str, A, I, M, R, F>(file, init, acc, merge)
    }

    /// Parse CSV from any source with a variable number of fields per record.
    pub fn parse_stream<
        SRC: Source,
        S,
        I: FnOnce() -> S,
        A: Fn(S, &[&str]) -> Result<S, UserError>,
        M: FnOnce(Vec<S>) -> R,
        R,
    >(&mut self, reader: SRC, init: I, acc: A, merge: M) -> (r: crate::Result<R>)
        requires
            old(self).wf(),
            reader.pending().len() < usize::MAX,
            call_requires(init, ()),
            forall|s: S, fields: &[&str]| call_requires(acc, (s, fields)),
            forall|states: Vec<S>| call_requires(merge, (states,)),
        ensures
            *final(self) == *old(self),
            answers_by_slice::<S, str, A>(acc),
            stream_returns::<S, str, A, I, M, R>(
                old(self).config(),
                reader.pending(),
                stream_access(old(self).config(), old(self).host(), reader),
                acc,
                init,
                merge,
                r,
            ),
    {
        let scheduler = Scheduler::with_host(self.config, self.host);
        scheduler.run_stream::<S, str, A, I, M, R, SRC>(reader, init, acc, merge)
    }

    /// Parse CSV already in memory, with a variable number of fields per record.
    pub fn parse_slice<
        S,
        I: Fn() -> S,
        A: Fn(S, &[&str]) -> Result<S, UserError>,
        M: FnOnce(Vec<S>) -> R,
        R,
    >(&mut self, data: &[u8], init: I, acc: A, merge: M) -> (r: crate::Result<R>)
        requires
            old(self).wf(),
            data@.len() < usize::MAX,
            call_requires(init, ()),
            forall|s: S, fields: &[&str]| call_requires(acc, (s, fields)),
            forall|states: Vec<S>| call_requires(merge, (states,)),
        ensures
            *final(self) == *old(self),
            answers_by_slice::<S, str, A>(acc),
            parse_returns::<S, str, A, I, M, R>(
                old(self).config(),
                old(self).host(),
                data@,
                slice_backend(),
                slice_access(old(self).host()),
                acc,
                init,
                merge,
                r,
            ),
    {
        let scheduler = Scheduler::with_host(self.config, self.host);
        scheduler.run_slice::<S, str, A, I, M, R>(data, init, acc, merge)
    }
}

impl Parser<Variadic, Bytes> {
    /// Parse a CSV file with a variable number of raw byte fields per record.
    pub fn parse<
        F: FileInput,
        S,
        I: Fn() -> S,
        A: Fn(S, &[&[u8]]) -> Result<S, UserError>,
        M: FnOnce(Vec<S>) -> R,
        R,
    >(&mut self, file: &F, init: I, acc: A, merge: M) -> (r: crate::Result<R>)
        requires
            old(self).wf(),
            file.content().len() < usize::MAX,
            call_requires(init, ()),
            forall|s: S, fields: &[&[u8]]| call_requires(acc, (s, fields)),
            forall|states: Vec<S>| call_requires(merge, (states,)),
        ensures
            *final(self) == *old(self),
            answers_by_slice::<S, [u8], A>(acc),
            parse_returns::<S, [u8], A, I, M, R>(
                old(self).config(),
                old(self).host(),
                file.content(),
                file_backend(old(self).config(), file.content().len() as int),
                file_access(*file, old(self).host()),
                acc,
                init,
                merge,
                r,
            ) || (!file.sized() && (r matches Err(e) && e is IO)),
    {
        let scheduler = Scheduler::with_host(self.config, self.host);
        scheduler.run::<S, [u8], A, I, M, R, F>(file, init, acc, merge)
    }

    /// Parse raw byte fields from any source, variable field count per record.
    pub fn parse_stream<
        SRC: Source,
        S,
        I: FnOnce() -> S,
        A: Fn(S, &[&[u8]]) -> Result<S, UserError>,
        M: FnOnce(Vec<S>) -> R,
        R,
    >(&mut self, reader: SRC, init: I, acc: A, merge: M) -> (r: crate::Result<R>)
        requires
            old(self).wf(),
            reader.pending().len() < usize::MAX,
            call_requires(init, ()),
            forall|s: S, fields: &[&[u8]]| call_requires(acc, (s, fields)),
            forall|states: Vec<S>| call_requires(merge, (states,)),
        ensures
            *final(self) == *old(self),
            answers_by_slice::<S, [u8], A>(acc),
            stream_returns::<S, [u8], A, I, M, R>(
                old(self).config(),
                reader.pending(),
                stream_access(old(self).config(), old(self).host(), reader),
                acc,
                init,
                merge,
                r,
            ),
    {
        let scheduler = Scheduler::with_host(self.config, self.host);
        scheduler.run_stream::<S, [u8], A, I, M, R, SRC>(reader, init, acc, merge)
    }

    /// Parse in-memory CSV as raw byte fields, variable field count per record.
    pub fn parse_slice<
        S,
        I: Fn() -> S,
        A: Fn(S, &[&[u8]]) -> Result<S, UserError>,
        M: FnOnce(Vec<S>) -> R,
        R,
    >(&mut self, data: &[u8], init: I, acc: A, merge: M) -> (r: crate::Result<R>)
        requires
            old(self).wf(),
            data@.len() < usize::MAX,
            call_requires(init, ()),
            forall|s: S, fields: &[&[u8]]| call_requires(acc, (s, fields)),
            forall|states: Vec<S>| call_requires(merge, (states,)),
        ensures
            *final(self) == *old(self),
            answers_by_slice::<S, [u8], A>(acc),
            parse_returns::<S, [u8], A, I, M, R>(
                old(self).config(),
                old(self).host(),
                data@,
                slice_backend(),
                slice_access(old(self).host()),
                acc,
                init,
                merge,
                r,
            ),
    {
        let scheduler = Scheduler::with_host(self.config, self.host);
        scheduler.run_slice::<S, [u8], A, I, M, R>(data, init, acc, merge)
    }
}

/// The number of fields that a callback takes is what is asked of every record; nothing else
/// about the dialect changes.
pub proof fn the_callback_fixes_the_number_of_fields(c: Config, n: usize)
    ensures
        with_arity(c, n) == (Config { field_count: Some(n), ..c }),
{
}

/// A function that takes an array is called with the fields of the record, in order, if
/// there are as many as it takes, and its answer is what it returned.
pub proof fn functions_are_called_with_an_array<
    S,
    O: Output + ?Sized,
    A: Fn(S, [&O; N]) -> Result<S, UserError>,
    const N: usize,
>(acc: A, before: S, record: Record, answer: Result<S, UserError>)
    requires
        answers::<S, O, ByArity<A, N>>(ByArity(acc), before, record, answer),
        record.len() == N,
        N > 0,
    ensures
        exists|fields: [&O; N]| #[trigger]
            call_ensures(acc, (before, fields), answer) && (forall|i: int|
                0 <= i < N ==> (#[trigger] fields@[i]).bytes() == record[i]),
{
    arrays_answer::<S, O, A, N>(acc);
    let fields = choose|fields: [&O; N]| #[trigger]
        call_ensures(acc, (before, fields), answer) && contents(fields@) == record;
    assert forall|i: int| 0 <= i < N implies (#[trigger] fields@[i]).bytes() == record[i] by {
        assert(contents(fields@)[i] == fields@[i].bytes());
    }
    assert(call_ensures(acc, (before, fields), answer));
}

/// A parser can be built just if the configuration is accepted, none of its control bytes
/// is above 0x7F if fields are handed out as text, and the bitmask parser, if it is asked
/// for, can read the dialect with some number of fields.
pub proof fn what_can_be_built<Mode: FieldMode, Encoding: Output + ?Sized>(c: Config)
    ensures
        build_fault::<Mode, Encoding>(c) is None <==> {
            &&& told_apart(c)
            &&& c.escape is Some ==> c.quote is Some
            &&& c.io_backend matches IoBackend::RingBuf(ring) ==> {
                &&& ring.buffer_size > 0
                &&& ring.buffer_limit matches Some(l) ==> l == 0 || ring.buffer_size <= l
                &&& c.io_buffer_limit matches Some(l) ==> l == 0 || ring.buffer_size <= l
            }
            &&& Encoding::textual() ==> {
                &&& c.delimiter <= 0x7F
                &&& c.terminator matches RecordTerminator::Byte(t) ==> t <= 0x7F
                &&& c.quote matches Some(q) ==> q <= 0x7F
                &&& c.escape matches Some(e) ==> e <= 0x7F
                &&& c.comment matches Some(k) ==> k <= 0x7F
            }
            &&& c.parser_backend == ParserBackend::Simd ==> bitmask_reads(
                if Mode::fixed() && c.field_count is None {
                    Config { field_count: Some(1), ..c }
                } else {
                    c
                },
            )
        },
{
    what_is_accepted(c);
    what_is_ascii(c);
    what_the_bitmask_parser_is_refused_for(probe_of(c, Mode::fixed()));
}

/// What is said of a parser that cannot be built: of its configuration first, then of its
/// control bytes, then of its parser.
pub proof fn what_is_said_of_a_build<Mode: FieldMode, Encoding: Output + ?Sized>(c: Config)
    ensures
        build_fault::<Mode, Encoding>(c) == (if !c.valid() {
            Some(c.fault()->0.text())
        } else if Encoding::textual() && !c.ascii() {
            Some(
                "delimiter, terminator, quote, escape, and comment must be ASCII in text mode; use `ParserBuilder::bytes` for non-UTF-8 encodings"@,
            )
        } else if c.parser_backend != ParserBackend::Simd {
            None
        } else {
            simd_objection(
                if Mode::fixed() && c.field_count is None {
                    Config { field_count: Some(1), ..c }
                } else {
                    c
                },
            )
        }),
        Arity::fixed(),
        !Variadic::fixed(),
{
}

/// A record of another number of fields is not handed to a function that takes an array.
pub proof fn functions_are_not_called_with_other_numbers<
    S,
    O: Output + ?Sized,
    A: Fn(S, [&O; N]) -> Result<S, UserError>,
    const N: usize,
>(acc: A, before: S, record: Record, answer: Result<S, UserError>)
    requires
        answers::<S, O, ByArity<A, N>>(ByArity(acc), before, record, answer),
        record.len() != N,
    ensures
        answer == Err::<S, UserError>(
            UserError::Parser(
                Error::NumberOfFields {
                    expected: N,
                    found: record.len() as usize,
                    position: Position { byte_offset: 0 },
                },
            ),
        ),
{
    arrays_answer::<S, O, A, N>(acc);
}

} // verus!
