//! Parsing one chunk: find its first record, then read its records.

use vstd::prelude::*;
use vstd::utf8::valid_utf8;

use super::dfa::table::State;
use super::driver::{needs, not_text, read_to, slack, reported, run_returns, turned_down, Pass};
use super::fold::{fits_in, folds, refuses, total, Accumulator, Fold};
use super::grammar::{
    advance, beyond, outcome_bounds, outcome_restart, placed, scan, scan_blank, scan_bounds, scan_halted,
    scan_restart, search, header_search, open_blank, open_since, widest_restart, widest_bounds,
    Failure, Found, Probe, Record,
};
use super::output::Output;
use super::text::{ascii_prefix, cut_text, extend_text, longest_text_shift};
use crate::config::{is_term, Config, QuoteHandling};
use crate::error::{lifted, moved_is_additive, Error, Position};
use crate::io::ChunkReader;

verus! {

/// CSV parse state at a chunk boundary.
#[derive(Debug, Copy, Clone, PartialEq, Eq, Structural)]
pub enum Assumption {
    /// The chunk starts outside a quoted field.
    OutOfQuotes,
    /// The chunk starts inside a quoted field.
    InQuotes,
    /// The chunk starts inside a quoted field after an escape character.
    InQuotesAfterEscape,
}

/// The assumptions a speculative parser must consider, in priority order.
pub open spec fn assumptions(quote: Option<u8>, escape: Option<u8>) -> Seq<Assumption> {
    if quote is None {
        seq![Assumption::OutOfQuotes]
    } else if escape is Some && escape != quote {
        seq![
            Assumption::OutOfQuotes,
            Assumption::InQuotes,
            Assumption::InQuotesAfterEscape,
        ]
    } else {
        seq![Assumption::OutOfQuotes, Assumption::InQuotes]
    }
}

/// Return the assumptions a speculative parser must consider, in priority
/// order, for the given configuration.
pub fn assumptions_for_config(quote: Option<u8>, escape: Option<u8>) -> (r: Vec<Assumption>)
    requires
        escape is Some ==> quote is Some,
    ensures
        r@ == assumptions(quote, escape),
{
    let mut r: Vec<Assumption> = Vec::new();
    r.push(Assumption::OutOfQuotes);
    if let Some(q) = quote {
        r.push(Assumption::InQuotes);
        if let Some(e) = escape {
            if q != e {
                r.push(Assumption::InQuotesAfterEscape);
            }
        }
    }
    assert(r@ =~= assumptions(quote, escape));
    r
}

/// Result of parsing a chunk under one assumption.
pub struct PassResult<S> {
    /// Byte offset of the terminator the first record starts after.
    pub record_start: Option<usize>,
    /// Byte offset of the terminator the last record ends on.
    pub record_end: Option<usize>,
    /// The accumulated state if successful, or the parse error.
    pub result: crate::Result<S>,
}

impl<S> PassResult<S> {
    /// No record starts in this chunk.
    pub fn no_record(state: S) -> (r: Self)
        ensures
            r == (PassResult { record_start: None, record_end: None, result: Ok(state) }),
    {
        Self { record_start: None, record_end: None, result: Ok(state) }
    }

    /// The chunk failed before a record start was found.
    pub fn failed(e: Error) -> (r: Self)
        ensures
            r == (PassResult::<S> { record_start: None, record_end: None, result: Err(e) }),
    {
        Self { record_start: None, record_end: None, result: Err(e) }
    }

    /// A chunk whose first record starts at `start`; `outcome` carries the
    /// last record end and the state, or the failure that ended the pass.
    pub fn started(start: usize, outcome: crate::Result<(Option<usize>, S)>) -> (r: Self)
        ensures
            r == match outcome {
                Ok((end, state)) => PassResult {
                    record_start: Some(start),
                    record_end: end,
                    result: Ok(state),
                },
                Err(e) => PassResult { record_start: Some(start), record_end: None, result: Err(e) },
            },
    {
        match outcome {
            Ok((record_end, state)) => Self {
                record_start: Some(start),
                record_end,
                result: Ok(state),
            },
            Err(e) => Self { record_start: Some(start), record_end: None, result: Err(e) },
        }
    }
}

/// How to find the first record boundary at the start of a chunk.
#[derive(Debug, Copy, Clone, PartialEq, Eq, Structural)]
pub enum FindRecordStart {
    /// Use strict parsing. Quickly rejects wrong assumptions, the default.
    Strict,
    /// Use lenient parsing. Fallback when all assumptions fail with strict.
    Lenient,
    /// Skip the search entirely — parsing starts from the first byte (chunk 0).
    No,
    /// Skip header rows (chunk 0).
    SkipHeaders,
}

/// The dialect with every quote a toggle, in which record boundaries are looked for.
pub open spec fn toggled(c: Config) -> Config {
    Config { quote_handling: QuoteHandling::Toggle, ..c }
}

/// The state that an assumption puts the start of a chunk in.
pub open spec fn opening(c: Config, a: Assumption) -> State {
    match a {
        Assumption::OutOfQuotes => State::FieldStart,
        Assumption::InQuotes => State::InQuotedField,
        Assumption::InQuotesAfterEscape => if c.doubled() {
            State::AfterClosingQuote
        } else {
            State::InEscapedQuote
        },
    }
}

/// The state in which a parser starts to search for a record boundary. One that
/// only follows the quotes tells inside from outside, no more.
pub open spec fn entry(exact: bool, c: Config, a: Assumption) -> State {
    if exact {
        opening(c, a)
    } else if a == Assumption::InQuotes || (a == Assumption::InQuotesAfterEscape && c.quote
        != c.escape) {
        State::InQuotedField
    } else {
        State::FieldStart
    }
}

/// How much of a chunk a search may look at.
pub open spec fn in_chunk(rest: Seq<u8>, left: nat) -> nat {
    if left <= rest.len() {
        left
    } else {
        rest.len()
    }
}

/// The search for a chunk's first record.
pub open spec fn first_record(
    c: Config,
    find: FindRecordStart,
    a: Assumption,
    rest: Seq<u8>,
    left: nat,
    exact: bool,
) -> Option<Found> {
    let n = in_chunk(rest, left);
    match find {
        FindRecordStart::No => Some(Found::Start(0)),
        FindRecordStart::SkipHeaders => header_search(c, rest, n),
        FindRecordStart::Strict => search(
            toggled(c),
            strict_probe_of(exact, true),
            entry(exact, c, a),
            rest,
            n,
        ).stop,
        FindRecordStart::Lenient => search(
            toggled(c),
            Probe::Off,
            entry(exact, c, a),
            rest,
            n,
        ).stop,
    }
}

/// What a strict search turns down: a parser that looks at pairs of bytes takes
/// a quote right after a closing quote for one half of a pair, also where the
/// dialect has no pairs.
pub open spec fn strict_probe_of(exact: bool, strict: bool) -> Probe {
    if !strict {
        Probe::Off
    } else if exact {
        Probe::Strict
    } else {
        Probe::Paired
    }
}

/// The reader has moved on by `n` bytes, and not past its chunk.
pub open spec fn advanced<R: ChunkReader>(before: R, after: R, n: int) -> bool {
    &&& 0 <= n <= in_chunk(before.rest(), before.left())
    &&& after.wf()
    &&& after.rest() == before.rest().skip(n)
    &&& after.left() == before.left() - n
    &&& after.reach() >= before.reach()
    &&& after.most() == before.most()
}

/// What a search returns, and where it leaves the reader. It is sure to be able to read
/// where so many bytes as `least` are sure to be had.
pub open spec fn searched<R: ChunkReader>(
    before: R,
    after: R,
    stop: Option<Found>,
    r: crate::Result<Option<usize>>,
    least: nat,
) -> bool {
    match r {
        Ok(Some(i)) => {
            &&& stop == Some(Found::Start(i as int))
            &&& i <= before.rest().len()
            &&& i <= before.left()
            &&& after.wf()
            &&& after.rest() == before.rest().skip(i as int)
            &&& after.left() == before.left() - i
            &&& after.reach() >= before.reach()
            &&& after.most() == before.most()
        },
        Ok(None) => stop is None && exists|n: int| #[trigger] advanced(before, after, n),
        Err(e) => {
            ||| stop matches Some(Found::Rejected(i)) && e == (Error::InvalidQuote {
                position: Position { byte_offset: i as usize },
            })
            ||| before.reach() < least && e is IO
        },
    }
}

/// What the body of a chunk, from its first boundary on, comes to: its records
/// folded into the state, up to the first terminator at or past the boundary.
pub open spec fn body_returns<S, O: Output + ?Sized, A: Accumulator<S, O>>(
    r: PassResult<S>,
    c: Config,
    p: Pass,
    steady: bool,
    most: nat,
    exact: bool,
    acc: A,
    init: S,
    shift: int,
) -> bool {
    let m = p.meaning(c);
    match r.result {
        Ok(state) => {
            &&& folds::<S, O, A>(acc, init, m.records, state)
            &&& m.end matches Ok(end) && r.record_end == placed(end, p.base)
            &&& O::textual() ==> valid_utf8(p.inp.take(read_to(c, p)))
            &&& fits_in(m.records, most)
        },
        Err(e) => {
            &&& r.record_end is None
            &&& {
                ||| reported(exact, c, p, e) && (exact ==> taken::<S, O, A>(acc, init, m.records))
                ||| some_refused::<S, O, A>(acc, init, m.records, shift, e)
                ||| not_text::<O>(p, e)
                ||| !steady && e is IO
            }
        },
    }
}

/// The accumulator can take all of `records`.
pub open spec fn taken<S, O: Output + ?Sized, A: Accumulator<S, O>>(
    acc: A,
    init: S,
    records: Seq<Record>,
) -> bool {
    exists|state: S| #[trigger] folds::<S, O, A>(acc, init, records, state)
}

/// Folding `records`, the accumulator can turn one of them down with an error
/// that is `e` once it is moved on by `shift`.
pub open spec fn some_refused<S, O: Output + ?Sized, A: Accumulator<S, O>>(
    acc: A,
    init: S,
    records: Seq<Record>,
    shift: int,
    e: Error,
) -> bool {
    exists|n: int, own: Error|
        0 <= n < records.len() && #[trigger] refuses::<S, O, A>(
            acc,
            init,
            records.take(n),
            records[n],
            own,
        ) && e == own.moved(shift)
}

/// The pass over the body of a chunk whose first boundary is at `start`.
pub open spec fn body_pass(rest: Seq<u8>, left: nat, start: int) -> Pass {
    Pass { inp: rest.skip(start), base: start, boundary: left - start }
}

/// What parsing a chunk returns.
pub open spec fn chunk_returns<S, O: Output + ?Sized, A: Accumulator<S, O>>(
    r: PassResult<S>,
    c: Config,
    stop: Option<Found>,
    rest: Seq<u8>,
    left: nat,
    reach: nat,
    most: nat,
    exact: bool,
    acc: A,
    init: S,
) -> bool {
    match r.record_start {
        None => {
            &&& r.record_end is None
            &&& match r.result {
                Ok(state) => stop is None && state == init,
                Err(e) => {
                    ||| stop matches Some(Found::Rejected(i)) && e == (Error::InvalidQuote {
                        position: Position { byte_offset: i as usize },
                    })
                    ||| reach < slack(exact) && e is IO
                },
            }
        },
        Some(start) => {
            &&& stop == Some(Found::Start(start as int))
            &&& start <= rest.len()
            &&& start <= left
            &&& body_returns::<S, O, A>(
                r,
                c,
                body_pass(rest, left, start as int),
                needs(c, body_pass(rest, left, start as int), exact) <= reach,
                most,
                exact,
                acc,
                init,
                0,
            )
        },
    }
}

/// Reports of a pass that starts with blank lines, in terms of the pass after them.
proof fn reported_after_blank(exact: bool, c: Config, p: Pass, q: Pass, k: nat, e: Error)
    requires
        p.wf(),
        k <= p.inp.len(),
        k == 0 || k <= p.boundary,
        forall|i: int| 0 <= i < k ==> c.terminator.ends(#[trigger] p.inp[i]),
        q == (Pass { inp: p.inp.skip(k as int), base: p.base + k, boundary: p.boundary - k }),
        reported(exact, c, q, e),
    ensures
        reported(exact, c, p, e),
{
    let b = if exact {
        p.boundary
    } else {
        p.inp.len() as int + 1
    };
    scan_blank(c, b, p.inp, 0, k);
    outcome_restart(c, b, p.inp, k);
}

/// Text that starts with blank lines goes wrong where the text after them does.
proof fn not_text_after_blank<O: Output + ?Sized>(c: Config, p: Pass, q: Pass, k: nat, e: Error)
    requires
        c.ascii(),
        k <= p.inp.len(),
        forall|i: int| 0 <= i < k ==> c.terminator.ends(#[trigger] p.inp[i]),
        q == (Pass { inp: p.inp.skip(k as int), base: p.base + k, boundary: p.boundary - k }),
        not_text::<O>(q, e),
    ensures
        not_text::<O>(p, e),
{
    assert(c.controls()[1] == Some(c.terminator.pair().0));
    assert(c.controls()[2] == c.terminator.pair().1);
    ascii_prefix(p.inp, k as int);
    let n = e->Utf8_position.byte_offset - q.base;
    assert(p.inp.subrange(k as int, p.inp.len() as int) =~= q.inp);
    longest_text_shift(p.inp, k as int, p.inp.len() as int, n);
    if valid_utf8(p.inp) {
        cut_text(p.inp, k as int);
    }
}

/// Text is read from blank lines on as it is from behind them.
proof fn read_after_blank(c: Config, p: Pass, q: Pass, k: nat)
    requires
        c.ascii(),
        p.wf(),
        k <= p.inp.len(),
        k <= p.boundary,
        forall|i: int| 0 <= i < k ==> c.terminator.ends(#[trigger] p.inp[i]),
        q == (Pass { inp: p.inp.skip(k as int), base: p.base + k, boundary: p.boundary - k }),
        valid_utf8(q.inp.take(read_to(c, q))),
    ensures
        valid_utf8(p.inp.take(read_to(c, p))),
{
    let m = q.inp.len();
    scan_blank(c, p.boundary, p.inp, 0, k);
    scan_restart(c, p.boundary, p.inp, k, m);
    scan_bounds(c, q.boundary, q.inp, m);
    assert(read_to(c, p) == read_to(c, q) + k);
    assert(c.controls()[1] == Some(c.terminator.pair().0));
    assert(c.controls()[2] == c.terminator.pair().1);
    ascii_prefix(p.inp, k as int);
    assert(p.inp.subrange(k as int, read_to(c, p)) =~= q.inp.take(read_to(c, q)));
    extend_text(p.inp, k as int, read_to(c, p));
}

/// Blank lines at the start of a pass need no room.
proof fn needs_after_blank(c: Config, p: Pass, q: Pass, k: nat, exact: bool)
    requires
        p.wf(),
        k <= p.inp.len(),
        k <= p.boundary,
        forall|i: int| 0 <= i < k ==> c.terminator.ends(#[trigger] p.inp[i]),
        q == (Pass { inp: p.inp.skip(k as int), base: p.base + k, boundary: p.boundary - k }),
    ensures
        needs(c, q, exact) == needs(c, p, exact),
{
    let runs = !exact;
    scan_blank(c, beyond(p.inp), p.inp, 0, k);
    assert forall|i: nat| i <= k implies #[trigger] open_since(
        c,
        runs,
        p.inp,
        i,
    ) is None by {
        open_blank(c, runs, p.inp, i);
    }
    widest_restart(c, runs, p.inp, k);
}

/// What the body of a chunk returns, in terms of the pass after its blank lines.
proof fn body_after_blank<S, O: Output + ?Sized, A: Accumulator<S, O>>(
    r: PassResult<S>,
    c: Config,
    p: Pass,
    q: Pass,
    k: nat,
    reach: nat,
    most: nat,
    exact: bool,
    acc: A,
    init: S,
    shift: int,
)
    requires
        p.wf(),
        O::textual() ==> c.ascii(),
        k <= p.inp.len(),
        k <= p.boundary,
        forall|i: int| 0 <= i < k ==> c.terminator.ends(#[trigger] p.inp[i]),
        q == (Pass { inp: p.inp.skip(k as int), base: p.base + k, boundary: p.boundary - k }),
        body_returns::<S, O, A>(
            r,
            c,
            q,
            needs(c, q, exact) <= reach,
            most,
            exact,
            acc,
            init,
            shift,
        ),
    ensures
        body_returns::<S, O, A>(
            r,
            c,
            p,
            needs(c, p, exact) <= reach,
            most,
            exact,
            acc,
            init,
            shift,
        ),
{
    scan_blank(c, p.boundary, p.inp, 0, k);
    outcome_restart(c, p.boundary, p.inp, k);
    needs_after_blank(c, p, q, k, exact);
    assert(p.meaning(c).records =~= q.meaning(c).records);
    if r.result is Ok && O::textual() {
        read_after_blank(c, p, q, k);
    }
    if let Err(e) = r.result {
        if reported(exact, c, q, e) {
            reported_after_blank(exact, c, p, q, k, e);
        } else if not_text::<O>(q, e) {
            not_text_after_blank::<O>(c, p, q, k, e);
        }
    }
}

/// A chunk-local result, counted from the start of the whole input.
pub open spec fn rebased<S>(r: PassResult<S>, by: int) -> PassResult<S> {
    PassResult {
        record_start: placed_at(r.record_start, by),
        record_end: placed_at(r.record_end, by),
        result: match r.result {
            Ok(s) => Ok(s),
            Err(e) => Err(e.moved(by)),
        },
    }
}

/// An offset, `by` bytes further on.
pub open spec fn placed_at(e: Option<usize>, by: int) -> Option<usize> {
    match e {
        Some(i) => Some((i + by) as usize),
        None => None,
    }
}

/// What the body of a chunk returns can be counted from the start of the whole input.
pub proof fn body_rebase<S, O: Output + ?Sized, A: Accumulator<S, O>>(
    r: PassResult<S>,
    c: Config,
    p: Pass,
    by: int,
    steady: bool,
    most: nat,
    exact: bool,
    acc: A,
    init: S,
)
    requires
        p.wf(),
        0 <= by,
        by + p.base + p.inp.len() < usize::MAX,
        body_returns::<S, O, A>(r, c, p, steady, most, exact, acc, init, 0),
    ensures
        body_returns::<S, O, A>(
            rebased(r, by),
            c,
            Pass { base: p.base + by, ..p },
            steady,
            most,
            exact,
            acc,
            init,
            by,
        ),
{
    let q = Pass { base: p.base + by, ..p };
    let b = if exact {
        p.boundary
    } else {
        p.inp.len() as int + 1
    };
    outcome_bounds(c, p.boundary, p.inp);
    outcome_bounds(c, b, p.inp);
    assert(q.meaning(c) == p.meaning(c));
    if let Err(e) = r.result {
        let m = p.meaning(c);
        if reported(exact, c, p, e) {
            assert(reported(exact, c, q, e.moved(by)));
        } else if some_refused::<S, O, A>(acc, init, m.records, 0, e) {
            let (n, own) = choose|n: int, own: Error|
                0 <= n < m.records.len() && #[trigger] refuses::<S, O, A>(
                    acc,
                    init,
                    m.records.take(n),
                    m.records[n],
                    own,
                ) && e == own.moved(0);
            moved_is_additive(own, 0, by);
            assert(refuses::<S, O, A>(acc, init, m.records.take(n), m.records[n], own));
            assert(some_refused::<S, O, A>(acc, init, m.records, by, e.moved(by)));
        } else if not_text::<O>(p, e) {
            assert(not_text::<O>(q, e.moved(by)));
        }
    }
}

/// A run of terminators over the boundary: the pass ends on the boundary,
/// without a record.
proof fn body_all_blank(c: Config, p: Pass, k: nat)
    requires
        p.wf(),
        k == p.boundary,
        k < p.inp.len(),
        forall|i: int| 0 <= i <= k ==> c.terminator.ends(#[trigger] p.inp[i]),
    ensures
        p.meaning(c).records == Seq::<Record>::empty(),
        p.meaning(c).end == Ok::<Option<int>, Failure>(Some(k as int)),
        read_to(c, p) == k,
        c.ascii() ==> valid_utf8(p.inp.take(k as int)),
{
    if c.ascii() {
        assert(c.controls()[1] == Some(c.terminator.pair().0));
        assert(c.controls()[2] == c.terminator.pair().1);
        ascii_prefix(p.inp, k as int);
    }
    scan_blank(c, p.boundary, p.inp, 0, k);
    assert(c.terminator.ends(p.inp[k as int]));
    let t = scan(c, p.boundary, p.inp, k + 1);
    assert(t == advance(c, p.boundary, scan(c, p.boundary, p.inp, k), p.inp[k as int], k as int));
    scan_halted(c, p.boundary, p.inp, k + 1, p.inp.len());
}

/// A chunk parser processes one chunk under a given assumption.
pub trait ChunkParser: Sized {
    /// The parser is in order.
    spec fn wf(&self) -> bool;

    /// The dialect the parser reads.
    spec fn dialect(&self) -> Config;

    /// Whether failures are reported exactly as the input means them.
    spec fn exact() -> bool;

    /// Why the parser cannot read a dialect, if it cannot.
    spec fn objection(c: Config) -> Option<Seq<char>>;

    /// The dialect the parser reads.
    fn config(&self) -> (r: &Config)
        ensures
            *r == self.dialect(),
    ;

    /// Check whether this parser implementation supports the given config.
    fn supports(config: &Config) -> (r: Result<(), &'static str>)
        ensures
            match r {
                Ok(_) => Self::objection(*config) is None,
                Err(m) => Self::objection(*config) == Some(m@),
            },
    ;

    /// Consume up to the chunk's first record boundary, returning its
    /// terminator's offset.
    fn scan_record_start<R: ChunkReader>(
        &self,
        reader: &mut R,
        assumption: Assumption,
        strict_probe: bool,
    ) -> (r: crate::Result<Option<usize>>)
        requires
            self.wf(),
            old(reader).wf(),
            old(reader).rest().len() <= usize::MAX,
        ensures
            searched(
                *old(reader),
                *final(reader),
                search(
                    toggled(self.dialect()),
                    strict_probe_of(Self::exact(), strict_probe),
                    entry(Self::exact(), self.dialect(), assumption),
                    old(reader).rest(),
                    in_chunk(old(reader).rest(), old(reader).left()),
                ).stop,
                r,
                slack(Self::exact()),
            ),
    ;

    /// As [`ChunkParser::scan_record_start`], but past the header record.
    /// Chunk 0's state is known exactly, so nothing is probed.
    fn scan_header_end<R: ChunkReader>(&self, reader: &mut R) -> (r: crate::Result<Option<usize>>)
        requires
            self.wf(),
            old(reader).wf(),
            old(reader).rest().len() <= usize::MAX,
        ensures
            searched(
                *old(reader),
                *final(reader),
                header_search(
                    self.dialect(),
                    old(reader).rest(),
                    in_chunk(old(reader).rest(), old(reader).left()),
                ),
                r,
                slack(Self::exact()),
            ),
    ;

    /// Parse records from `base` — where [`skip_empty_lines`] left this
    /// same `reader` — folding each, returning the last record end.
    fn parse_from<
        S,
        O: Output + ?Sized,
        A: Accumulator<S, O>,
        R: ChunkReader,
    >(&self, reader: &mut R, base: usize, fold: &mut Fold<S, O, A>) -> (r: crate::Result<
        Option<usize>,
    >)
        requires
            self.wf(),
            old(reader).wf(),
            old(reader).most() <= old(fold).bound(),
            base + old(reader).rest().len() < usize::MAX,
            old(reader).rest().len() > 0 ==> !self.dialect().terminator.ends(old(reader).rest()[0]),
            O::textual() ==> self.dialect().ascii(),
            old(fold).wf(),
            old(fold).log() == Seq::<Record>::empty(),
        ensures
            final(fold).acc() == old(fold).acc(),
            final(fold).init() == old(fold).init(),
            final(fold).bound() == old(fold).bound(),
            run_returns(
                r,
                self.dialect(),
                Pass {
                    inp: old(reader).rest(),
                    base: base as int,
                    boundary: old(reader).left() as int,
                },
                *final(fold),
                needs(
                    self.dialect(),
                    Pass {
                        inp: old(reader).rest(),
                        base: base as int,
                        boundary: old(reader).left() as int,
                    },
                    Self::exact(),
                ) <= old(reader).reach(),
                Self::exact(),
            ),
    ;

    /// Parse a chunk, calling `acc` for each complete record.
    fn parse<S, O: Output + ?Sized, A: Accumulator<S, O>, R: ChunkReader>(
        &self,
        reader: &mut R,
        state: S,
        assumption: Assumption,
        acc: &A,
        find: FindRecordStart,
    ) -> (r: PassResult<S>)
        requires
            self.wf(),
            old(reader).wf(),
            old(reader).rest().len() < usize::MAX,
            O::textual() ==> self.dialect().ascii(),
            total::<S, O, A>(*acc),
        ensures
            chunk_returns::<S, O, A>(
                r,
                self.dialect(),
                first_record(
                    self.dialect(),
                    find,
                    assumption,
                    old(reader).rest(),
                    old(reader).left(),
                    Self::exact(),
                ),
                old(reader).rest(),
                old(reader).left(),
                old(reader).reach(),
                old(reader).most(),
                Self::exact(),
                *acc,
                state,
            ),
    {
        let ghost c = self.dialect();
        let ghost rest = reader.rest();
        let ghost left = reader.left();
        let ghost reach = reader.reach();
        let ghost most = reader.most();
        let ghost init = state;
        let scanned = match find {
            FindRecordStart::No => {
                assert(rest.skip(0) =~= rest);
                Ok(Some(0))
            },
            FindRecordStart::SkipHeaders => self.scan_header_end(reader),
            FindRecordStart::Strict => self.scan_record_start(reader, assumption, true),
            FindRecordStart::Lenient => self.scan_record_start(reader, assumption, false),
        };
        let record_start: usize = match scanned {
            Ok(Some(offset)) => offset,
            Ok(None) => {
                return PassResult::no_record(state);
            },
            Err(e) => {
                return PassResult::failed(e);
            },
        };
        let ghost p = body_pass(rest, left, record_start as int);
        // The boundary is known from here on, so every outcome reports it.
        let outcome = match skip_empty_lines(reader, self.config()) {
            // The run outlasts the chunk: a boundary, but no body.
            Ok((skipped, true)) => {
                proof {
                    body_all_blank(c, p, skipped as nat);
                }
                Ok((Some(record_start + skipped), state))
            },
            Ok((skipped, false)) => {
                let ghost q = Pass {
                    inp: p.inp.skip(skipped as int),
                    base: p.base + skipped,
                    boundary: p.boundary - skipped,
                };
                let mut fold = Fold::<S, O, A>::within(acc, state, Ghost(most));
                let ended = self.parse_from(reader, record_start + skipped, &mut fold);
                let ghost done = fold;
                let ghost ran = ended;
                let outcome = match ended {
                    Ok(record_end) => Ok((record_end, fold.into_state())),
                    Err(e) => Err(e),
                };
                let ghost came = outcome;
                proof {
                    let r = match came {
                        Ok((end, state)) => PassResult {
                            record_start: Some(record_start),
                            record_end: end,
                            result: Ok(state),
                        },
                        Err(e) => PassResult {
                            record_start: Some(record_start),
                            record_end: None,
                            result: Err(e),
                        },
                    };
                    if let Err(e) = ran {
                        if done.wf() {
                            done.state_folds();
                        }
                        if turned_down(done, q.meaning(c).records, e) {
                            let all = q.meaning(c).records;
                            assert(all.take(done.log().len() as int) == done.log());
                            moved_is_additive(e, 0, 0);
                            assert(refuses::<S, O, A>(
                                *acc,
                                init,
                                all.take(done.log().len() as int),
                                all[done.log().len() as int],
                                e,
                            ));
                        }
                    }
                    assert(body_returns::<S, O, A>(
                        r,
                        c,
                        q,
                        needs(c, q, Self::exact()) <= reach,
                        most,
                        Self::exact(),
                        *acc,
                        init,
                        0,
                    ));
                    body_after_blank::<S, O, A>(
                        r,
                        c,
                        p,
                        q,
                        skipped as nat,
                        reach,
                        most,
                        Self::exact(),
                        *acc,
                        init,
                        0,
                    );
                }
                outcome
            },
            Err(e) => {
                proof {
                    widest_bounds(c, !Self::exact(), p.inp, 0, p.inp.len());
                }
                Err(e)
            },
        };
        PassResult::started(record_start, outcome)
    }
}

/// Consume the run of bare terminator bytes at the reader's position, so
/// every backend's body starts on real content. The `bool` says the run
/// was still going at the chunk boundary, so the chunk holds no record.
pub fn skip_empty_lines<R: ChunkReader>(reader: &mut R, config: &Config) -> (r: crate::Result<
    (usize, bool),
>)
    requires
        old(reader).wf(),
        old(reader).rest().len() <= usize::MAX,
    ensures
        match r {
            Ok((n, cut)) => {
                &&& n <= old(reader).left()
                &&& n <= old(reader).rest().len()
                &&& forall|i: int|
                    0 <= i < n ==> config.terminator.ends(#[trigger] old(reader).rest()[i])
                &&& cut ==> n == old(reader).left() && n < old(reader).rest().len()
                    && config.terminator.ends(old(reader).rest()[n as int])
                &&& !cut ==> n == old(reader).rest().len() || !config.terminator.ends(
                    old(reader).rest()[n as int],
                )
                &&& final(reader).wf()
                &&& final(reader).rest() == old(reader).rest().skip(n as int)
                &&& final(reader).left() == old(reader).left() - n
                &&& final(reader).reach() >= old(reader).reach()
                &&& final(reader).most() == old(reader).most()
            },
            Err(e) => old(reader).reach() < 1 && e is IO,
        },
{
    let (term_a, term_b) = config.terminator.bytes();
    let ghost rest = reader.rest();
    let ghost left = reader.left();
    let mut consumed: usize = 0;
    assert(rest.skip(0) =~= rest);
    loop
        invariant
            rest == old(reader).rest(),
            rest.len() <= usize::MAX,
            left == old(reader).left(),
            forall|b: u8| #[trigger]
                config.terminator.ends(b) <==> (b == term_a || term_b == Some(b)),
            reader.wf(),
            reader.reach() >= old(reader).reach(),
            reader.most() == old(reader).most(),
            consumed <= left,
            consumed <= rest.len(),
            reader.rest() == rest.skip(consumed as int),
            reader.left() == left - consumed,
            forall|i: int| 0 <= i < consumed ==> config.terminator.ends(#[trigger] rest[i]),
        decreases rest.len() - consumed,
    {
        if let Err(e) = lifted(reader.fill(1)) {
            return Err(e);
        }
        let rem: usize = reader.remaining_in_chunk();
        let buf = reader.buffer();
        let len: usize = buf.len();
        proof {
            assert forall|i: int| 0 <= i < len implies #[trigger] buf@[i] == rest[consumed + i] by {
                assert(buf@[i] == reader.rest()[i]);
            }
        }
        if len == 0 || !is_term(buf[0], term_a, term_b) {
            return Ok((consumed, false));
        }
        if rem == 0 {
            return Ok((consumed, true));
        }
        // `buf[0]` is a terminator and `rem >= 1`, so this always advances.
        let cap: usize = if len < rem {
            len
        } else {
            rem
        };
        let mut i: usize = 0;
        while i < cap && is_term(buf[i], term_a, term_b)
            invariant
                i <= cap <= len == buf@.len(),
                forall|b: u8| #[trigger]
                    config.terminator.ends(b) <==> (b == term_a || term_b == Some(b)),
                forall|j: int| 0 <= j < i ==> config.terminator.ends(#[trigger] buf@[j]),
            decreases cap - i,
        {
            i += 1;
        }
        proof {
            assert forall|j: int| 0 <= j < consumed + i implies config.terminator.ends(
                #[trigger] rest[j],
            ) by {
                if j >= consumed {
                    assert(config.terminator.ends(buf@[j - consumed]));
                }
            }
            assert(i > 0);
            assert(rest.skip(consumed as int).skip(i as int) =~= rest.skip(consumed + i));
        }
        reader.consume(i);
        consumed = consumed + i;
    }
}

/// A chunk can start inside quotes just if there is a quote byte, and behind an escape byte
/// just if that is another. It is assumed first that it does not, and nothing is assumed
/// twice.
pub proof fn what_is_assumed(quote: Option<u8>, escape: Option<u8>)
    ensures
        ({
            let all = assumptions(quote, escape);
            &&& all.len() > 0 && all[0] == Assumption::OutOfQuotes
            &&& all.no_duplicates()
            &&& all.contains(Assumption::InQuotes) <==> quote is Some
            &&& all.contains(Assumption::InQuotesAfterEscape) <==> quote is Some && escape is Some
                && quote->0 != escape->0
            &&& quote is Some ==> all.len() > 1 && all[1] == Assumption::InQuotes
        }),
{
    let all = assumptions(quote, escape);
    if quote is Some {
        assert(all[1] == Assumption::InQuotes);
        if escape is Some && escape != quote {
            assert(all[2] == Assumption::InQuotesAfterEscape);
        }
    }
}

} // verus!
