//! The table-driven chunk parser.

pub mod needles;
pub mod stepper;
pub mod table;

use vstd::prelude::*;

use self::needles::first_at;
use self::stepper::DfaStepper;
use self::table::{
    ends_plain, ends_quoted, Dfa, State, ERROR_STATE, FIRST_ACTION, RECORD_END_STATE,
};
use super::chunk::{
    advanced, in_chunk, opening, searched, strict_probe_of, toggled, Assumption, ChunkParser,
};
use super::driver::ChunkDriver;
use super::fold::{Accumulator, Fold};
use super::grammar::{anchored, search, search_bounds, search_step, search_stopped, Probe};
use super::output::Output;
use crate::config::{Config, QuoteHandling};
use crate::error::{lifted, Error, Position};
use crate::io::ChunkReader;

verus! {

/// A DFA-based chunk parser.
///
/// `dfa` implements the user's dialect and drives the parse of records;
/// `find_dfa` is the same dialect forced to `QuoteHandling::Toggle` and
/// drives the search for a record start.
#[derive(Debug)]
pub struct DfaChunkParser {
    dfa: Dfa,
    find_dfa: Dfa,
    config: Config,
}

/// In state `s` byte `b` leads back to it.
spec fn loops(c: Config, s: State, b: u8) -> bool {
    ||| s == State::InField && !ends_plain(c, b)
    ||| s == State::InQuotedField && !ends_quoted(c, b)
    ||| s == State::RecordStart && c.terminator.ends(b)
}

/// Bytes that lead back to the state a search is in leave the search there.
proof fn search_plain(c: Config, probe: Probe, from: State, inp: Seq<u8>, n: nat, m: nat)
    requires
        n <= m <= inp.len(),
        search(c, probe, from, inp, n).stop is None,
        c.quote_handling != QuoteHandling::Literal || probe == Probe::Off,
        ({
            let s = search(c, probe, from, inp, n).state;
            forall|i: int| n <= i < m ==> loops(c, s, #[trigger] inp[i])
        }),
    ensures
        search(c, probe, from, inp, m) == search(c, probe, from, inp, n),
    decreases m - n,
{
    if n < m {
        search_plain(c, probe, from, inp, n, (m - 1) as nat);
        let s = search(c, probe, from, inp, n).state;
        let b = inp[m - 1];
        assert(loops(c, s, b));
    }
}

/// How many bytes at the start of `tail` lead back to `state`: the scan fast
/// path.
fn plain_run(dfa: &Dfa, state: State, tail: &[u8], Ghost(c): Ghost<Config>) -> (r: usize)
    requires
        dfa.speaks(c),
    ensures
        r <= tail@.len(),
        forall|i: int| 0 <= i < r ==> loops(c, state, #[trigger] tail@[i]),
        r < tail@.len() ==> !loops(c, state, tail@[r as int]),
{
    let size: usize = tail.len();
    match state {
        State::InField => {
            let hit = dfa.in_field_needles().find(tail);
            assert(first_at(tail@, |b: u8| dfa.in_field_needles.has(b), hit));
            match hit {
                Some(off) => off,
                None => size,
            }
        },
        State::InQuotedField => {
            let hit = dfa.in_quoted_needles().find(tail);
            assert(first_at(tail@, |b: u8| dfa.in_quoted_needles.has(b), hit));
            match hit {
                Some(off) => off,
                None => size,
            }
        },
        // Empty-line skip. Cold relative to the field scan.
        State::RecordStart => {
            let mask = dfa.record_start_structural();
            let mut k: usize = 0;
            while k < size && !mask[tail[k] as usize]
                invariant
                    k <= size == tail@.len(),
                    mask == &dfa.record_start_structural,
                    dfa.speaks(c),
                    forall|i: int| 0 <= i < k ==> c.terminator.ends(#[trigger] tail@[i]),
                decreases size - k,
            {
                k += 1;
            }
            k
        },
        _ => 0,
    }
}

impl DfaChunkParser {
    /// The tables are those of the dialect.
    pub closed spec fn speaks(self) -> bool {
        &&& self.dfa.speaks(self.config)
        &&& self.find_dfa.speaks(toggled(self.config))
    }

    /// The dialect.
    pub closed spec fn reads(self) -> Config {
        self.config
    }

    /// A parser for the dialect of `config`.
    pub fn new(config: Config) -> (r: Self)
        ensures
            r.speaks(),
            r.reads() == config,
    {
        let dfa = Dfa::new(&config);
        let mut find_config = config;
        find_config.quote_handling = QuoteHandling::Toggle;
        let find_dfa = Dfa::new(&find_config);
        Self { dfa, find_dfa, config }
    }

    /// Map an assumption to the initial DFA state.
    pub fn assumption_to_state(&self, assumption: Assumption) -> (r: State)
        ensures
            r == opening(self.reads(), assumption),
    {
        match assumption {
            Assumption::OutOfQuotes => State::FieldStart,
            Assumption::InQuotes => State::InQuotedField,
            Assumption::InQuotesAfterEscape => {
                let doubled_quotes = match (self.config.quote, self.config.escape) {
                    (Some(q), Some(e)) => q == e,
                    _ => false,
                };
                if doubled_quotes {
                    State::AfterClosingQuote
                } else {
                    State::InEscapedQuote
                }
            },
        }
    }

    /// Scan for the first record boundary starting from `initial_state`.
    ///
    /// Bounded to the nominal chunk end via `reader.remaining_in_chunk()`
    /// — without the cap one iteration would scan past the chunk, since
    /// buffers extend to EOF. `Ok(None)` means no boundary inside the
    /// chunk; the scheduler's merge-time reparse covers that.
    ///
    /// With `blame`, a rejection is reported at the quote that is at fault. The probe
    /// reports it where it was noticed.
    ///
    /// `strict_probe` is only meaningful with the toggling table, which tags
    /// misplaced quotes instead of erroring on them.
    #[verifier::rlimit(40)]
    fn find_record_start_from<R: ChunkReader>(
        dfa: &Dfa,
        strict_probe: bool,
        blame: bool,
        reader: &mut R,
        initial_state: State,
        Ghost(c): Ghost<Config>,
    ) -> (r: crate::Result<Option<usize>>)
        requires
            dfa.speaks(c),
            initial_state.number() < 7,
            blame ==> initial_state == State::RecordStart,
            c.quote_handling != QuoteHandling::Literal || !strict_probe,
            old(reader).wf(),
            old(reader).rest().len() <= usize::MAX,
        ensures
            searched(
                *old(reader),
                *final(reader),
                anchored(
                    search(
                        c,
                        strict_probe_of(true, strict_probe),
                        initial_state,
                        old(reader).rest(),
                        in_chunk(old(reader).rest(), old(reader).left()),
                    ),
                    blame,
                ),
                r,
                1,
            ),
    {
        let mut dfa_state = initial_state;
        let mut total_consumed: usize = 0;
        let ghost rest = reader.rest();
        let ghost left = reader.left();
        let ghost n = in_chunk(rest, left);
        let ghost probe = strict_probe_of(true, strict_probe);
        assert(rest.skip(0) =~= rest);
        loop
            invariant
                dfa.speaks(c),
                initial_state.number() < 7,
                c.quote_handling != QuoteHandling::Literal || !strict_probe,
                probe == strict_probe_of(true, strict_probe),
                rest == old(reader).rest(),
                left == old(reader).left(),
                rest.len() <= usize::MAX,
                n == in_chunk(rest, left),
                reader.wf(),
                reader.reach() >= old(reader).reach(),
                reader.most() == old(reader).most(),
                blame ==> initial_state == State::RecordStart,
                total_consumed <= n,
                reader.rest() == rest.skip(total_consumed as int),
                reader.left() == left - total_consumed,
                search(c, probe, initial_state, rest, total_consumed as nat).stop is None,
                search(c, probe, initial_state, rest, total_consumed as nat).state
                    == dfa_state,
            decreases n - total_consumed,
        {
            if let Err(e) = lifted(reader.fill(1)) {
                return Err(e);
            }
            let remaining: usize = reader.remaining_in_chunk();
            let buf = reader.buffer();
            let len: usize = buf.len();
            let buf_end: usize = if len < remaining {
                len
            } else {
                remaining
            };
            if buf_end == 0 {
                assert(advanced(*old(reader), *reader, total_consumed as int));
                return Ok(None);
            }
            proof {
                assert forall|i: int| 0 <= i < len implies #[trigger] buf@[i] == rest[total_consumed
                    + i] by {
                    assert(buf@[i] == reader.rest()[i]);
                }
            }
            let mut pos: usize = 0;
            while pos < buf_end
                invariant
                    dfa.speaks(c),
                    initial_state.number() < 7,
                    c.quote_handling != QuoteHandling::Literal || !strict_probe,
                    probe == strict_probe_of(true, strict_probe),
                    rest == old(reader).rest(),
                    left == old(reader).left(),
                    rest.len() <= usize::MAX,
                    n == in_chunk(rest, left),
                    reader.wf(),
                    reader.reach() >= old(reader).reach(),
                reader.most() == old(reader).most(),
                blame ==> initial_state == State::RecordStart,
                    reader.rest() == rest.skip(total_consumed as int),
                    reader.left() == left - total_consumed,
                    buf@.len() == reader.shown(),
                    pos <= buf_end <= buf@.len(),
                    total_consumed + buf_end <= n,
                    forall|i: int|
                        0 <= i < buf@.len() ==> #[trigger] buf@[i] == rest[total_consumed + i],
                    search(
                        c,
                        probe,
                        initial_state,
                        rest,
                        (total_consumed + pos) as nat,
                    ).stop is None,
                    search(
                        c,
                        probe,
                        initial_state,
                        rest,
                        (total_consumed + pos) as nat,
                    ).state == dfa_state,
                decreases buf_end - pos,
            {
                // Same scan fast path as the stepper, but the bytes
                // are discarded (they belong to the previous chunk's
                // record or the header row), so there is no write cursor
                // to maintain.
                let tail: &[u8] = vstd::slice::slice_subrange(buf, pos, buf_end);
                let ghost at = (total_consumed + pos) as nat;
                proof {
                    search_bounds(c, probe, initial_state, rest, at);
                }
                let skipped: usize = plain_run(dfa, dfa_state, tail, Ghost(c));
                proof {
                    assert forall|i: int| at <= i < at + skipped implies loops(
                        c,
                        dfa_state,
                        #[trigger] rest[i],
                    ) by {
                        assert(loops(c, dfa_state, tail@[i - at]));
                        assert(tail@[i - at] == buf@[pos + (i - at)]);
                    }
                    search_plain(c, probe, initial_state, rest, at, at + skipped as nat);
                }
                pos = pos + skipped;
                if pos < buf_end {
                    let byte: u8 = buf[pos];
                    let trans = dfa.transition(dfa_state, byte);
                    let ghost at = (total_consumed + pos) as nat;
                    let ghost before = search(c, probe, initial_state, rest, at);
                    let ghost after = search(c, probe, initial_state, rest, at + 1);
                    proof {
                        assert(byte == rest[at as int]);
                        assert(after == search_step(c, probe, before, byte, at as int));
                        if after.stop is Some {
                            search_stopped(c, probe, initial_state, rest, at + 1, n);
                        }
                    }
                    pos = pos + 1;
                    let strict_rejected = strict_probe && trans.is_strict_error();
                    let behind_quote = dfa_state == State::AfterClosingQuote;
                    dfa_state = trans.next_state();
                    let s: u8 = dfa_state.code();
                    if s >= FIRST_ACTION || strict_rejected {
                        let anchor: usize = pos - 1;
                        let byte_offset: usize = total_consumed + anchor;
                        if s == ERROR_STATE || strict_rejected {
                            reader.consume(pos);
                            let byte_offset: usize = if blame && behind_quote {
                                byte_offset - 1
                            } else {
                                byte_offset
                            };
                            return Err(Error::InvalidQuote { position: Position { byte_offset } });
                        }
                        if s == RECORD_END_STATE {
                            reader.consume(anchor);
                            assert(rest.skip(total_consumed as int).skip(anchor as int)
                                =~= rest.skip(byte_offset as int));
                            return Ok(Some(byte_offset));
                        }
                        // FieldEnd — resume scanning the next field.
                        dfa_state = State::FieldStart;
                    }
                }
            }
            reader.consume(pos);
            assert(rest.skip(total_consumed as int).skip(pos as int) =~= rest.skip(
                total_consumed + pos,
            ));
            total_consumed = total_consumed + pos;
        }
    }
}

impl ChunkParser for DfaChunkParser {
    open spec fn wf(&self) -> bool {
        self.speaks()
    }

    open spec fn dialect(&self) -> Config {
        self.reads()
    }

    open spec fn exact() -> bool {
        true
    }

    /// The DFA supports all configurations.
    open spec fn objection(c: Config) -> Option<Seq<char>> {
        None
    }

    fn config(&self) -> (r: &Config) {
        &self.config
    }

    fn supports(_config: &Config) -> (r: Result<(), &'static str>) {
        Ok(())
    }

    fn scan_record_start<R: ChunkReader>(
        &self,
        reader: &mut R,
        assumption: Assumption,
        strict_probe: bool,
    ) -> (r: crate::Result<Option<usize>>) {
        DfaChunkParser::find_record_start_from(
            &self.find_dfa,
            strict_probe,
            false,
            reader,
            self.assumption_to_state(assumption),
            Ghost(toggled(self.config)),
        )
    }

    /// The user's dialect, not the toggling one: chunk 0's state is exact.
    /// `RecordStart` consumes leading comment lines before the header.
    fn scan_header_end<R: ChunkReader>(&self, reader: &mut R) -> (r: crate::Result<Option<usize>>) {
        DfaChunkParser::find_record_start_from(
            &self.dfa,
            false,
            true,
            reader,
            State::RecordStart,
            Ghost(self.config),
        )
    }

    fn parse_from<
        S,
        O: Output + ?Sized,
        A: Accumulator<S, O>,
        R: ChunkReader,
    >(&self, reader: &mut R, base: usize, fold: &mut Fold<S, O, A>) -> (r: crate::Result<
        Option<usize>,
    >) {
        // The driver owns fill / consume / UTF-8 validation; the stepper
        // owns the per-byte DFA.
        let mut stepper = DfaStepper::new(&self.dfa, &self.config, base);
        ChunkDriver::new(base).run(reader, &mut stepper, fold)
    }
}

} // verus!
