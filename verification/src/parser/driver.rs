//! Buffer-management driver shared by all chunk parsers.
//!
//! The driver owns everything independent of how a parser steps over
//! bytes: the fill/consume loop against a [`ChunkReader`], incremental
//! UTF-8 validation via [`Output::validate_chunk`], the consume decision
//! at the tail of each outer iteration, and the EOF UTF-8 tail check.

use vstd::prelude::*;
use vstd::utf8::valid_utf8;

use super::fold::{fits_in, refuses, Accumulator, Fold};
use super::grammar::{
    error_of, outcome, placed, scan, scan_bounds, scan_ends, widest, widest_bounds, Failure, Halt, Outcome, Record,
};
use super::output::{longest_text, Output};
use super::text::{cut_at_ascii, extend_text, longest_text_shift};
use crate::config::Config;
use crate::error::{lifted, Error, Position};
use crate::io::{monus, ChunkReader};

verus! {

/// What a pass reads: the bytes from its start to the end of the input, where
/// in the chunk it starts, and how far from its start the chunk's boundary is.
pub struct Pass {
    pub inp: Seq<u8>,
    pub base: int,
    pub boundary: int,
}

impl Pass {
    /// What the pass comes to.
    pub open spec fn meaning(self, c: Config) -> Outcome {
        outcome(c, self.boundary, self.inp)
    }

    /// Offsets fit a machine word.
    pub open spec fn wf(self) -> bool {
        0 <= self.base && 0 <= self.boundary && self.base + self.inp.len() < usize::MAX
    }
}

/// `log` holds the first of `records`.
pub open spec fn starts(log: Seq<Record>, records: Seq<Record>) -> bool {
    log.len() <= records.len() && records.take(log.len() as int) == log
}

/// The fold stopped because the accumulator turned down the next record with `e`.
pub open spec fn turned_down<S, O: Output + ?Sized, A: Accumulator<S, O>>(
    fold: Fold<S, O, A>,
    records: Seq<Record>,
    e: Error,
) -> bool {
    &&& fold.log().len() < records.len()
    &&& starts(fold.log(), records)
    &&& refuses::<S, O, A>(
        fold.acc(),
        fold.init(),
        fold.log(),
        records[fold.log().len() as int],
        e,
    )
}

/// The accumulator has taken all of `records`.
pub open spec fn took_all<S, O: Output + ?Sized, A: Accumulator<S, O>>(
    fold: Fold<S, O, A>,
    records: Seq<Record>,
) -> bool {
    fold.wf() && fold.log() == records
}

/// `e` reports the failure that the pass means.
pub open spec fn exact_report(c: Config, p: Pass, e: Error) -> bool {
    p.meaning(c).end matches Err(f) && e == error_of(f, p.base)
}

/// `e` reports, of a record of more than `expected` fields, that it has so many
/// and how many were counted until the count was given up.
pub open spec fn counts_fields(e: Error, expected: usize, at: int) -> bool {
    e matches Error::NumberOfFields { expected: n, found, position } && n == expected && found
        != expected && position.byte_offset == at
}

/// `e` reports the first failure of the input, whether before or after the
/// boundary of the pass. The number of fields of a record that has too many and is
/// not read to its end is a lower bound, and such a record is reported
/// even if the input ends inside it.
pub open spec fn eager_report(c: Config, p: Pass, e: Error) -> bool {
    match outcome(c, p.inp.len() as int + 1, p.inp).end {
        Ok(_) => false,
        Err(f) => {
            ||| e == error_of(f, p.base)
            ||| match f {
                Failure::Quote { at } => false,
                Failure::Arity { expected, found, at } => counts_fields(e, expected, p.base + at)
                    && expected < e->NumberOfFields_found <= found,
                Failure::Unclosed { at, record, fields } => c.field_count is Some && counts_fields(
                    e,
                    c.field_count->0,
                    p.base + record,
                ) && c.field_count->0 < e->NumberOfFields_found <= fields,
            }
        },
    }
}

/// What is reported of an input that fails a pass: exactly the failure that the
/// pass means, or the first one that a parser which reads ahead comes across.
pub open spec fn reported(exact: bool, c: Config, p: Pass, e: Error) -> bool {
    if exact {
        exact_report(c, p, e)
    } else {
        eager_report(c, p, e)
    }
}

/// Per-iteration view handed to the stepper.
pub struct StepCtx {
    /// Where to resume scanning.
    pub scan_start: usize,
    /// Where to end scanning.
    pub scan_end: usize,
    /// Bytes remaining before the chunk boundary.
    pub remaining_in_chunk: usize,
    /// Sum of bytes consumed from the reader so far.
    pub total_consumed: usize,
    /// The pass that is stepped over.
    pub pass: Ghost<Pass>,
}

impl StepCtx {
    /// A context for a step on its own.
    pub fn new(
        scan_start: usize,
        scan_end: usize,
        remaining_in_chunk: usize,
        total_consumed: usize,
    ) -> (r: Self)
        ensures
            r.scan_start == scan_start,
            r.scan_end == scan_end,
            r.remaining_in_chunk == remaining_in_chunk,
            r.total_consumed == total_consumed,
    {
        StepCtx {
            scan_start,
            scan_end,
            remaining_in_chunk,
            total_consumed,
            pass: Ghost(Pass { inp: Seq::empty(), base: 0, boundary: 0 }),
        }
    }

    /// The context places the buffer `buf` in the pass `p`.
    pub open spec fn fits(self, p: Pass, buf: Seq<u8>, c: Config, textual: bool) -> bool {
        let consumed = self.total_consumed - p.base;
        &&& p.wf()
        &&& 0 <= consumed
        &&& self.scan_start <= self.scan_end <= buf.len()
        &&& consumed + buf.len() <= p.inp.len()
        &&& buf.skip(self.scan_start as int) == p.inp.subrange(
            consumed + self.scan_start,
            consumed + buf.len(),
        )
        &&& self.remaining_in_chunk == monus(p.boundary, consumed)
        &&& textual ==> c.ascii() && valid_utf8(p.inp.take(consumed + self.scan_end))
    }
}

/// Outcome of one stepper invocation.
pub enum StepResult {
    /// Reached the end of the scan without crossing the chunk boundary.
    Suspended {
        /// Where the stepper resumes.
        resume_at: usize,
        /// How many buffer bytes the driver may consume.
        consumable: usize,
        /// Last record-end as an offset from the start of the chunk.
        last_record_end: Option<usize>,
    },
    /// This chunk is done. Carries the final record's end offset.
    Done(usize),
    /// Parser-level error.
    Error(Error),
}

/// Pluggable parser of buffered bytes. The driver calls `step` once per refill
/// and `consume` after each consume to keep the stepper's
/// internal state aligned with buffer movements.
pub trait ChunkStepper<O: Output + ?Sized> {
    /// The dialect the stepper reads.
    spec fn config(&self) -> Config;

    /// The stepper has read the pass up to the end of `seen`, which is what the
    /// buffer holds of it, `consumed` bytes having left the buffer; and it has
    /// handed out the records `log`.
    spec fn tracks(&self, p: Pass, consumed: int, seen: Seq<u8>, log: Seq<Record>) -> bool;

    /// How many bytes may leave the buffer when the scan stands at `pos`.
    spec fn spare(&self, pos: int) -> int;

    /// The last record-end so far.
    spec fn last_end(&self) -> Option<usize>;

    /// How far at most the stepper stays behind the bytes it is given.
    spec fn lag() -> nat;

    /// Whether failures are reported exactly as the pass means them.
    spec fn exact() -> bool;

    /// Step the parser over `buf[ctx.scan_start..ctx.scan_end]`, emitting records.
    fn step<S, A: Accumulator<S, O>>(
        &mut self,
        buf: &mut [u8],
        ctx: StepCtx,
        fold: &mut Fold<S, O, A>,
    ) -> (r: StepResult)
        requires
            old(fold).wf(),
            old(buf)@.len() <= old(fold).bound(),
            ctx.fits(ctx.pass@, old(buf)@, old(self).config(), O::textual()),
            old(self).tracks(
                ctx.pass@,
                ctx.total_consumed - ctx.pass@.base,
                old(buf)@.take(ctx.scan_start as int),
                old(fold).log(),
            ),
        ensures
            final(self).config() == old(self).config(),
            final(fold).acc() == old(fold).acc(),
            final(fold).init() == old(fold).init(),
            final(fold).bound() == old(fold).bound(),
            final(buf)@.len() == old(buf)@.len(),
            match r {
                StepResult::Suspended { resume_at, consumable, last_record_end } => {
                    &&& final(fold).wf()
                    &&& ctx.scan_start <= resume_at <= ctx.scan_end <= resume_at + Self::lag()
                    &&& final(buf)@.skip(resume_at as int) == old(buf)@.skip(resume_at as int)
                    &&& final(self).tracks(
                        ctx.pass@,
                        ctx.total_consumed - ctx.pass@.base,
                        final(buf)@.take(resume_at as int),
                        final(fold).log(),
                    )
                    &&& consumable == final(self).spare(resume_at as int)
                    &&& consumable <= resume_at
                    &&& ctx.scan_end - consumable + 4 <= needs(
                        old(self).config(),
                        ctx.pass@,
                        Self::exact(),
                    )
                    &&& last_record_end == final(self).last_end()
                },
                StepResult::Done(e) => {
                    let m = ctx.pass@.meaning(old(self).config());
                    &&& final(fold).wf()
                    &&& final(fold).log() == m.records
                    &&& m.end == Ok::<Option<int>, Failure>(Some(e - ctx.pass@.base))
                    &&& ctx.remaining_in_chunk <= e - ctx.total_consumed < ctx.scan_end
                },
                StepResult::Error(e) => {
                    ||| {
                        &&& reported(Self::exact(), old(self).config(), ctx.pass@, e)
                        &&& Self::exact() ==> took_all(
                            *final(fold),
                            ctx.pass@.meaning(old(self).config()).records,
                        )
                    }
                    ||| turned_down(*final(fold), ctx.pass@.meaning(old(self).config()).records, e)
                },
            },
    ;

    /// Account for `n` consumed buffer bytes, e.g., by shifting any buffer-relative offsets.
    fn consume(
        &mut self,
        n: usize,
        Ghost(p): Ghost<Pass>,
        Ghost(consumed): Ghost<int>,
        Ghost(seen): Ghost<Seq<u8>>,
        Ghost(log): Ghost<Seq<Record>>,
    )
        requires
            old(self).tracks(p, consumed, seen, log),
            n == old(self).spare(seen.len() as int),
            n <= seen.len(),
        ensures
            final(self).config() == old(self).config(),
            final(self).last_end() == old(self).last_end(),
            final(self).tracks(p, consumed + n, seen.skip(n as int), log),
    ;

    /// Flush pending records, validate the terminal parser state.
    /// Returns the final record-end (if any).
    fn finalize<S, A: Accumulator<S, O>>(
        &mut self,
        buf: &mut [u8],
        ctx: StepCtx,
        fold: &mut Fold<S, O, A>,
    ) -> (r: Result<Option<usize>, Error>)
        requires
            old(fold).wf(),
            old(buf)@.len() <= old(fold).bound(),
            ctx.fits(ctx.pass@, old(buf)@, old(self).config(), O::textual()),
            old(self).tracks(
                ctx.pass@,
                ctx.total_consumed - ctx.pass@.base,
                old(buf)@.take(ctx.scan_start as int),
                old(fold).log(),
            ),
            ctx.scan_end == old(buf)@.len(),
            ctx.scan_end <= ctx.scan_start + Self::lag(),
            ctx.total_consumed - ctx.pass@.base + ctx.scan_end == ctx.pass@.inp.len(),
        ensures
            final(self).config() == old(self).config(),
            final(fold).acc() == old(fold).acc(),
            final(fold).init() == old(fold).init(),
            final(fold).bound() == old(fold).bound(),
            final(buf)@.len() == old(buf)@.len(),
            match r {
                Ok(e) => {
                    let m = ctx.pass@.meaning(old(self).config());
                    &&& final(fold).wf()
                    &&& final(fold).log() == m.records
                    &&& m.end matches Ok(end) && placed(end, ctx.pass@.base) == (if e.is_some() {
                        e
                    } else {
                        old(self).last_end()
                    })
                },
                Err(e) => {
                    ||| {
                        &&& reported(Self::exact(), old(self).config(), ctx.pass@, e)
                        &&& Self::exact() ==> took_all(
                            *final(fold),
                            ctx.pass@.meaning(old(self).config()).records,
                        )
                    }
                    ||| turned_down(*final(fold), ctx.pass@.meaning(old(self).config()).records, e)
                },
            },
    ;
}

/// How many bytes a parser may ask for beyond the record under way: it validates ahead,
/// and one that works on whole vectors lags behind by up to two.
pub open spec fn slack(exact: bool) -> nat {
    if exact {
        4
    } else {
        131
    }
}

/// How many bytes at a time a pass asks for at most: the widest record of its input, and
/// the slack.
pub open spec fn needs(c: Config, p: Pass, exact: bool) -> int {
    widest(c, !exact, p.inp, p.inp.len()) + slack(exact)
}

/// How far a pass reads: to the boundary that stops it, or to the end of the input.
pub open spec fn read_to(c: Config, p: Pass) -> int {
    match scan(c, p.boundary, p.inp, p.inp.len()).halt {
        Some(Halt::Done(x)) => x,
        _ => p.inp.len() as int,
    }
}

/// A pass that ends at or behind its boundary, but in the input, is stopped there.
proof fn stopped_there(c: Config, p: Pass, x: int)
    requires
        p.meaning(c).end == Ok::<Option<int>, Failure>(Some(x)),
        p.boundary <= x < p.inp.len(),
    ensures
        read_to(c, p) == x,
        c.terminator.ends(p.inp[x]),
{
    scan_ends(c, p.boundary, p.inp, p.inp.len());
    scan_bounds(c, p.boundary, p.inp, p.inp.len());
}

/// A pass over text reads text, wherever it is stopped.
proof fn read_text(c: Config, p: Pass)
    requires
        c.ascii(),
        valid_utf8(p.inp),
    ensures
        valid_utf8(p.inp.take(read_to(c, p))),
{
    let x = read_to(c, p);
    scan_ends(c, p.boundary, p.inp, p.inp.len());
    scan_bounds(c, p.boundary, p.inp, p.inp.len());
    if x < p.inp.len() {
        assert(c.controls()[1] == Some(c.terminator.pair().0));
        assert(c.controls()[2] == c.terminator.pair().1);
        cut_at_ascii(p.inp, x);
    } else {
        assert(p.inp.take(x) =~= p.inp);
    }
}

/// What a run over a pass returns: what the pass means, unless the accumulator
/// turns a record down, the text is not valid UTF-8, or the reader fails. A failure
/// that is reported exactly comes after the accumulator has taken the records
/// before it.
pub open spec fn run_returns<S, O: Output + ?Sized, A: Accumulator<S, O>>(
    r: crate::Result<Option<usize>>,
    c: Config,
    p: Pass,
    fold: Fold<S, O, A>,
    steady: bool,
    exact: bool,
) -> bool {
    let m = p.meaning(c);
    match r {
        Ok(e) => {
            &&& fold.wf()
            &&& fold.log() == m.records
            &&& m.end matches Ok(end) && placed(end, p.base) == e
            &&& O::textual() ==> valid_utf8(p.inp.take(read_to(c, p)))
            &&& fits_in(m.records, fold.bound())
        },
        Err(e) => {
            ||| reported(exact, c, p, e) && (exact ==> took_all(fold, m.records))
            ||| turned_down(fold, m.records, e)
            ||| not_text::<O>(p, e)
            ||| !steady && e is IO
        },
    }
}

/// The input of the pass is not valid UTF-8 although it has to be, and `e`
/// points at the first byte that is not part of valid text.
pub open spec fn not_text<O: Output + ?Sized>(p: Pass, e: Error) -> bool {
    &&& O::textual()
    &&& !valid_utf8(p.inp)
    &&& e matches Error::Utf8 { position } && longest_text(p.inp, position.byte_offset - p.base)
}

/// Upper bound on how many fresh bytes one driver iteration UTF-8
/// validates. Readers whose `buffer()` exposes everything up to EOF
/// would otherwise make every chunk validate to the end of the file.
pub const VALIDATE_WINDOW: usize = 131072;

/// Drives a [`ChunkStepper`] over a [`ChunkReader`].
///
/// One driver per `parse_from` invocation. Holds buffer-level state
/// and contains the fill/consume calls in the parsing pipeline.
pub struct ChunkDriver {
    /// End of the UTF-8 validated prefix. Buffer-relative, `>= resume_at`.
    validated: usize,
    /// Where the next stepper call resumes. Buffer-relative.
    resume_at: usize,
    /// Offset in the chunk of the bytes in the reader's buffer.
    total_consumed: usize,
}

impl ChunkDriver {
    /// Offset in the chunk of the bytes in the reader's buffer.
    pub closed spec fn at(self) -> usize {
        self.total_consumed
    }

    /// The driver has not started.
    pub closed spec fn idle(self) -> bool {
        self.validated == 0 && self.resume_at == 0
    }

    /// A driver over a reader that stands at `start_offset` in its chunk.
    pub fn new(start_offset: usize) -> (r: Self)
        ensures
            r.idle(),
            r.at() == start_offset,
    {
        Self { validated: 0, resume_at: 0, total_consumed: start_offset }
    }

    /// The bytes up to `validated` are text, if they have to be.
    spec fn validated_text<O: Output + ?Sized>(self, p: Pass) -> bool {
        O::textual() ==> valid_utf8(p.inp.take(self.total_consumed - p.base + self.validated))
    }

    /// UTF-8 validate fresh buffer bytes, at most `VALIDATE_WINDOW` per call.
    fn validate_fresh<O: Output + ?Sized>(
        &mut self,
        buf: &[u8],
        Ghost(p): Ghost<Pass>,
    ) -> (r: crate::Result<()>)
        requires
            p.wf(),
            old(self).total_consumed >= p.base,
            old(self).validated <= buf@.len(),
            old(self).total_consumed - p.base + buf@.len() <= p.inp.len(),
            old(self).validated_text::<O>(p),
            buf@.skip(old(self).validated as int) == p.inp.subrange(
                old(self).total_consumed - p.base + old(self).validated,
                old(self).total_consumed - p.base + buf@.len(),
            ),
        ensures
            final(self).resume_at == old(self).resume_at,
            final(self).total_consumed == old(self).total_consumed,
            match r {
                Ok(_) => {
                    &&& old(self).validated <= final(self).validated <= buf@.len()
                    &&& final(self).validated_text::<O>(p)
                    &&& final(self).validated == old(self).validated ==> buf@.len()
                        - final(self).validated < 4
                    &&& final(self).validated == old(self).validated < buf@.len()
                        && final(self).total_consumed - p.base + buf@.len() == p.inp.len()
                        ==> O::textual() && longest_text(
                        p.inp,
                        final(self).total_consumed - p.base + final(self).validated,
                    )
                },
                Err(e) => not_text::<O>(p, e),
            },
    {
        let len: usize = buf.len();
        let room: usize = len - self.validated;
        let window_end: usize = if room <= 4 + VALIDATE_WINDOW {
            len
        } else {
            self.validated + 4 + VALIDATE_WINDOW
        };
        if window_end <= self.validated {
            return Ok(());
        }
        let ghost consumed = self.total_consumed - p.base;
        let ghost a = consumed + self.validated;
        let ghost b = consumed + window_end;
        let window: &[u8] = vstd::slice::slice_subrange(buf, self.validated, window_end);
        proof {
            let v = self.validated as int;
            assert(window@ =~= buf@.skip(v).take(window_end - v));
            assert(window@ =~= p.inp.subrange(a, b));
        }
        match O::validate_chunk(window) {
            Ok(n) => {
                proof {
                    if O::textual() {
                        assert(window@.take(n as int) =~= p.inp.subrange(a, a + n));
                        extend_text(p.inp, a, a + n);
                        if n == 0 && b == p.inp.len() {
                            longest_text_shift(p.inp, a, b, 0);
                        }
                    }
                }
                self.validated = self.validated + n;
                Ok(())
            },
            Err(rel) => {
                proof {
                    longest_text_shift(p.inp, a, b, rel as int);
                    assert(p.inp.take(p.inp.len() as int) =~= p.inp);
                    if valid_utf8(p.inp) {
                        assert(a + rel == p.inp.len());
                        let tail = window@.skip(rel as int);
                        assert(tail =~= seq![]);
                        assert(valid_utf8(tail + seq![]));
                    }
                }
                Err(
                    Error::Utf8 {
                        position: Position {
                            byte_offset: self.total_consumed + self.validated + rel,
                        },
                    },
                )
            },
        }
    }

    /// Drive `stepper` until it reports `Done`, errors out, or EOF is
    /// reached. Returns the offset in the chunk of the last
    /// completed record's end, or `None` if no record was completed. The first failure
    /// to read ends it.
    #[verifier::rlimit(40)]
    pub fn run<
        S,
        O: Output + ?Sized,
        A: Accumulator<S, O>,
        R: ChunkReader,
        ST: ChunkStepper<O>,
    >(self, reader: &mut R, stepper: &mut ST, fold: &mut Fold<S, O, A>) -> (r: crate::Result<
        Option<usize>,
    >)
        requires
            self.idle(),
            old(reader).wf(),
            old(reader).most() <= old(fold).bound(),
            self.at() + old(reader).rest().len() < usize::MAX,
            old(fold).wf(),
            old(fold).log() == Seq::<Record>::empty(),
            old(stepper).last_end() is None,
            O::textual() ==> old(stepper).config().ascii(),
            ({
                let p = Pass {
                    inp: old(reader).rest(),
                    base: self.at() as int,
                    boundary: old(reader).left() as int,
                };
                old(stepper).tracks(p, 0, seq![], seq![])
            }),
        ensures
            final(fold).acc() == old(fold).acc(),
            final(fold).init() == old(fold).init(),
            final(fold).bound() == old(fold).bound(),
            ({
                let p = Pass {
                    inp: old(reader).rest(),
                    base: self.at() as int,
                    boundary: old(reader).left() as int,
                };
                run_returns(
                    r,
                    old(stepper).config(),
                    p,
                    *final(fold),
                    needs(old(stepper).config(), p, ST::exact()) <= old(reader).reach(),
                    ST::exact(),
                )
            }),
            final(reader).failure() == old(reader).failure() || (r matches Err(Error::IO(e))
                && final(reader).failure() == Some(e)),
            r matches Err(Error::IO(e)) ==> final(reader).failure() == Some(e) || turned_down(
                *final(fold),
                outcome(
                    old(stepper).config(),
                    old(reader).left() as int,
                    old(reader).rest(),
                ).records,
                Error::IO(e),
            ),
    {
        let mut this = self;
        let ghost p = Pass {
            inp: reader.rest(),
            base: this.total_consumed as int,
            boundary: reader.left() as int,
        };
        let ghost c = stepper.config();
        let ghost m = p.meaning(c);
        let ghost steady = needs(c, p, ST::exact()) <= reader.reach();
        let mut last_record_end: Option<usize> = None;
        proof {
            assert(p.inp.take(0) =~= seq![]);
            assert(valid_utf8(Seq::<u8>::empty()));
            assert(reader.rest().take(0) =~= seq![]);
            assert(reader.rest().skip(0) =~= p.inp.skip(0));
            widest_bounds(c, !ST::exact(), p.inp, 0, p.inp.len());
        }
        loop
            invariant
                p.wf(),
                p.inp == old(reader).rest(),
                p.base == self.at(),
                p.boundary == old(reader).left(),
                c == old(stepper).config(),
                m == p.meaning(c),
                steady == (needs(c, p, ST::exact()) <= old(reader).reach()),
                reader.reach() >= old(reader).reach(),
                reader.most() == old(reader).most(),
                reader.failure() == old(reader).failure(),
                reader.most() <= fold.bound(),
                this.validated + 4 <= needs(c, p, ST::exact()),
                stepper.config() == c,
                O::textual() ==> c.ascii(),
                fold.wf(),
                fold.acc() == old(fold).acc(),
                fold.init() == old(fold).init(),
                fold.bound() == old(fold).bound(),
                reader.wf(),
                this.resume_at <= this.validated <= reader.shown(),
                this.validated <= this.resume_at + ST::lag(),
                this.total_consumed >= p.base,
                this.total_consumed - p.base + reader.rest().len() == p.inp.len(),
                reader.left() == monus(p.boundary, this.total_consumed - p.base),
                this.validated_text::<O>(p),
                reader.rest().skip(this.resume_at as int) == p.inp.skip(
                    this.total_consumed - p.base + this.resume_at,
                ),
                stepper.tracks(
                    p,
                    this.total_consumed - p.base,
                    reader.rest().take(this.resume_at as int),
                    fold.log(),
                ),
                last_record_end == stepper.last_end(),
            ensures
                reader.shown() - this.validated < 4,
                reader.shown() == reader.rest().len(),
                this.validated < reader.shown() ==> O::textual() && longest_text(
                    p.inp,
                    this.total_consumed - p.base + this.validated,
                ),
            decreases p.inp.len() - (this.total_consumed - p.base + this.validated),
        {
            let ghost rest = reader.rest();
            let ghost consumed = this.total_consumed - p.base;
            // refill the buffer (at least 4-bytes for multibyte UTF-8 sequences)
            if let Err(e) = lifted(reader.fill(this.validated.saturating_add(4))) {
                return Err(e);
            }
            // UTF-8 validate fresh buffer bytes. No progress means either no
            // new data at all, or a tail `fill` already had its chance to
            // complete – the check after the loop turns that into a UTF-8 error.
            let validated_before: usize = this.validated;
            let buf = reader.buffer();
            proof {
                let v = this.validated as int;
                let r = this.resume_at as int;
                assert(buf@.skip(v) =~= rest.skip(r).subrange(v - r, buf@.len() - r));
                assert(p.inp.subrange(consumed + v, consumed + buf@.len()) =~= p.inp.skip(
                    consumed + r,
                ).subrange(v - r, buf@.len() - r));
            }
            this.validate_fresh::<O>(buf, Ghost(p))?;
            if this.validated <= validated_before {
                break;
            }
            let remaining_in_chunk = reader.remaining_in_chunk();
            let buf = reader.buffer_mut();
            // set up the stepper context
            let ctx = StepCtx {
                scan_start: this.resume_at,
                scan_end: this.validated,
                remaining_in_chunk,
                total_consumed: this.total_consumed,
                pass: Ghost(p),
            };
            let ghost shown = buf@;
            proof {
                let r = this.resume_at as int;
                assert(shown.skip(r) =~= rest.skip(r).take(shown.len() - r));
                assert(p.inp.subrange(consumed + r, consumed + shown.len()) =~= p.inp.skip(
                    consumed + r,
                ).take(shown.len() - r));
                assert(shown.take(r) =~= rest.take(r));
            }
            match stepper.step(buf, ctx, fold) {
                StepResult::Done(lre) => {
                    proof {
                        let x = lre - p.base;
                        fold.state_folds();
                        stopped_there(c, p, x);
                        if O::textual() {
                            let text = p.inp.take(consumed + this.validated);
                            assert(c.controls()[1] == Some(c.terminator.pair().0));
                            assert(c.controls()[2] == c.terminator.pair().1);
                            assert(text[x] == p.inp[x]);
                            cut_at_ascii(text, x);
                            assert(text.take(x) =~= p.inp.take(x));
                        }
                    }
                    return Ok(Some(lre));
                },
                StepResult::Error(e) => {
                    return Err(e);
                },
                StepResult::Suspended { resume_at, consumable, last_record_end: lre } => {
                    last_record_end = lre;
                    let ghost after = buf@;
                    let ghost now = reader.rest();
                    proof {
                        let r = resume_at as int;
                        assert(now == after + rest.skip(shown.len() as int));
                        assert(after.skip(r) == shown.skip(r));
                        assert(now.take(r) =~= after.take(r));
                        assert forall|i: int| r <= i < now.len() implies now[i] == rest[i] by {
                            if i < shown.len() {
                                assert(after.skip(r)[i - r] == shown.skip(r)[i - r]);
                            }
                        }
                        assert(now.skip(r) =~= rest.skip(r));
                        assert(rest.skip(r) =~= rest.skip(this.resume_at as int).skip(r - this.resume_at));
                        assert(p.inp.skip(consumed + r) =~= p.inp.skip(
                            consumed + this.resume_at,
                        ).skip(r - this.resume_at));
                    }
                    // when nothing can be consumed, nothing moves and `fill` grows the buffer
                    if consumable > 0 {
                        reader.consume(consumable);
                        stepper.consume(
                            consumable,
                            Ghost(p),
                            Ghost(consumed),
                            Ghost(now.take(resume_at as int)),
                            Ghost(fold.log()),
                        );
                        this.total_consumed = this.total_consumed + consumable;
                        this.validated = this.validated - consumable;
                    }
                    this.resume_at = resume_at - consumable;
                    proof {
                        assert(now.take(resume_at as int).skip(consumable as int) =~= reader.rest().take(
                            this.resume_at as int,
                        ));
                        assert(reader.rest().skip(this.resume_at as int) =~= now.skip(resume_at as int));
                    }
                },
            }
        }
        // loop exited with unvalidated tail bytes, so they are genuinely invalid
        let shown: usize = reader.buffer().len();
        if shown > this.validated {
            assert(p.inp.take(p.inp.len() as int) =~= p.inp);
            return Err(
                Error::Utf8 {
                    position: Position { byte_offset: this.total_consumed + this.validated },
                },
            );
        }
        // EOF – flush any partial record
        let ctx = StepCtx {
            scan_start: this.resume_at,
            scan_end: this.validated,
            remaining_in_chunk: reader.remaining_in_chunk(),
            total_consumed: this.total_consumed,
            pass: Ghost(p),
        };
        let ghost rest = reader.rest();
        let buf = reader.buffer_mut();
        proof {
            assert(buf@ =~= rest);
            let r = this.resume_at as int;
            let consumed = this.total_consumed - p.base;
            assert(p.inp.subrange(consumed + r, consumed + rest.len()) =~= p.inp.skip(consumed + r));
            if O::textual() {
                assert(p.inp.take(consumed + this.validated) =~= p.inp);
                read_text(c, p);
            }
        }
        let finished = stepper.finalize(buf, ctx, fold);
        proof {
            if finished is Ok {
                fold.state_folds();
            }
        }
        match finished {
            Ok(Some(end)) => Ok(Some(end)),
            Ok(None) => Ok(last_record_end),
            Err(e) => Err(e),
        }
    }
}

} // verus!
