//! The bitmask chunk parser.

pub mod bitmask;
pub mod bitops;
pub mod cursor_stepper;
pub mod faults;
pub mod fieldcount;
pub mod fields;
pub mod findstart;
pub mod index;
pub mod index_stepper;
pub mod masks;
pub mod progress;
pub mod scan;
pub mod stream;

use vstd::prelude::*;

use self::cursor_stepper::SimdCursorStepper;
use self::findstart::{find_record_start, readable, readable_bytes};
use self::index_stepper::SimdIndexStepper;
use self::scan::ScannerConfig;
use super::chunk::{advanced, in_chunk, skip_empty_lines, Assumption, ChunkParser};
use super::dfa::table::State;
use super::driver::ChunkDriver;
use super::fold::{Accumulator, Fold};
use super::grammar::{search, search_bounds, Found, Probe};
use super::output::Output;
use crate::config::{Config, QuoteHandling};
use crate::io::ChunkReader;

verus! {

/// The bytes of a dialect that the bitmask parser cares about.
pub open spec fn chars_of(c: Config) -> ScannerConfig {
    ScannerConfig {
        delim: c.delimiter,
        term: c.terminator.pair().0,
        term_b: c.terminator.pair().1,
        quote: c.quote,
        doubled_quotes: c.doubled(),
    }
}

/// Largest arity the bitmask parser serves; wider records route to the DFA.
pub const FIXED_MAX_ARITY: usize = 63;

/// Why the bitmask parser cannot read a dialect, if it cannot.
pub open spec fn simd_objection(c: Config) -> Option<Seq<char>> {
    if c.field_count is None {
        Some("SIMD parser requires a fixed field count (Arity mode)"@)
    } else if !(1 <= c.field_count->0 <= 63) {
        Some("SIMD parser supports at most 63 fields per record"@)
    } else if c.trim {
        Some("SIMD parser does not support `trim`"@)
    } else if c.flexible {
        Some("SIMD parser does not support `flexible` (variable field count)"@)
    } else if c.comment is Some {
        Some("SIMD parser does not support comment lines"@)
    } else if c.quote_handling != QuoteHandling::Toggle {
        Some("SIMD parser only supports `QuoteHandling::Toggle`"@)
    } else if c.quote is Some && c.escape is Some && c.quote != c.escape {
        Some("SIMD parser does not yet support escape characters distinct from quote"@)
    } else {
        None
    }
}

/// Reject configs the bitmask pipeline does not model. Every
/// terminator setting is supported: a `\r\n` run collapses to one
/// boundary, as blank lines do.
pub fn simd_supports(config: &Config) -> (r: Result<(), &'static str>)
    ensures
        match r {
            Ok(_) => simd_objection(*config) is None,
            Err(m) => simd_objection(*config) == Some(m@),
        },
{
    // 1..=63 fixed fields per record (flexible or wider records route to the DFA).
    match config.field_count {
        Some(n) => {
            if n < 1 || n > FIXED_MAX_ARITY {
                return Err("SIMD parser supports at most 63 fields per record");
            }
        },
        None => {
            return Err("SIMD parser requires a fixed field count (Arity mode)");
        },
    }
    if config.trim {
        return Err("SIMD parser does not support `trim`");
    }
    if config.flexible {
        return Err("SIMD parser does not support `flexible` (variable field count)");
    }
    if config.comment.is_some() {
        return Err("SIMD parser does not support comment lines");
    }
    match config.quote_handling {
        QuoteHandling::Toggle => {},
        _ => {
            return Err("SIMD parser only supports `QuoteHandling::Toggle`");
        },
    }
    if let (Some(quote), Some(escape)) = (config.quote, config.escape) {
        if escape != quote {
            return Err(
                "SIMD parser does not yet support escape characters distinct from quote",
            );
        }
    }
    Ok(())
}

/// First terminator byte at or past the chunk boundary: the run's start,
/// or the boundary itself when the run straddles it (`stop`).
pub fn handoff(run_start: usize, remaining_in_chunk: usize, stop: bool) -> (r: usize)
    ensures
        r == (if stop && remaining_in_chunk > run_start {
            remaining_in_chunk
        } else {
            run_start
        }),
{
    if stop && remaining_in_chunk > run_start {
        remaining_in_chunk
    } else {
        run_start
    }
}

/// A bitmask chunk parser: 64-byte vectors → structural bitmasks
/// → field indices → records. `config.quote` picks the stepper;
/// [`SimdChunkParser::supports`] gates the dialect.
#[derive(Debug)]
pub struct SimdChunkParser {
    /// Dialect and mode this parser was built for.
    config: Config,
}

impl SimdChunkParser {
    /// The dialect.
    pub closed spec fn reads(self) -> Config {
        self.config
    }

    /// A parser for the dialect of `config`.
    pub fn new(config: Config) -> (r: Self)
        ensures
            r.reads() == config,
    {
        Self { config }
    }
}

/// What a search found, `n` bytes further on.
pub open spec fn found_shift(f: Option<Found>, n: int) -> Option<Found> {
    match f {
        None => None,
        Some(Found::Start(i)) => Some(Found::Start(i + n)),
        Some(Found::Rejected(i)) => Some(Found::Rejected(i + n)),
    }
}

/// Behind empty lines, a search from the start of a record is one from the start
/// of a field.
proof fn search_behind_blank(c: Config, inp: Seq<u8>, n: nat, i: nat)
    requires
        c.comment is None,
        n + i <= inp.len(),
        forall|j: int| 0 <= j < n ==> c.terminator.ends(#[trigger] inp[j]),
        i > 0 ==> !c.terminator.ends(inp[n as int]),
    ensures
        ({
            let whole = search(c, Probe::Off, State::RecordStart, inp, n + i);
            let part = search(c, Probe::Off, State::FieldStart, inp.skip(n as int), i);
            &&& whole.stop == found_shift(part.stop, n as int)
            &&& i == 0 ==> whole.state == State::RecordStart
            &&& i > 0 ==> whole.state == part.state
        }),
    decreases n + i,
{
    if i > 0 {
        search_behind_blank(c, inp, n, (i - 1) as nat);
        assert(inp.skip(n as int)[i - 1] == inp[n + i - 1]);
        if i == 1 {
            assert(search(c, Probe::Off, State::FieldStart, inp.skip(n as int), 0).stop is None);
        }
    } else if n > 0 {
        search_behind_blank(c, inp, (n - 1) as nat, 0);
        assert(c.terminator.ends(inp[n - 1]));
    }
}

/// A search that takes quotes as they come turns nothing down.
proof fn search_accepts(c: Config, from: State, inp: Seq<u8>, n: nat)
    requires
        c.quote_handling == QuoteHandling::Toggle,
        from.number() < 7,
    ensures
        !(search(c, Probe::Off, from, inp, n).stop matches Some(Found::Rejected(_))),
    decreases n,
{
    if n > 0 {
        search_accepts(c, from, inp, (n - 1) as nat);
        search_bounds(c, Probe::Off, from, inp, (n - 1) as nat);
    }
}

impl ChunkParser for SimdChunkParser {
    open spec fn wf(&self) -> bool {
        readable(self.reads())
    }

    open spec fn dialect(&self) -> Config {
        self.reads()
    }

    open spec fn exact() -> bool {
        false
    }

    open spec fn objection(c: Config) -> Option<Seq<char>> {
        simd_objection(c)
    }

    fn config(&self) -> (r: &Config) {
        &self.config
    }

    fn supports(config: &Config) -> (r: Result<(), &'static str>) {
        simd_supports(config)
    }

    fn scan_record_start<R: ChunkReader>(
        &self,
        reader: &mut R,
        assumption: Assumption,
        strict_probe: bool,
    ) -> (r: crate::Result<Option<usize>>) {
        find_record_start(reader, &self.config, assumption, strict_probe)
    }

    /// Blank lines go first, or the header row is never found.
    fn scan_header_end<R: ChunkReader>(&self, reader: &mut R) -> (r: crate::Result<Option<usize>>) {
        let ghost c = self.config;
        let ghost rest = reader.rest();
        let ghost left = reader.left();
        let ghost n = in_chunk(rest, left);
        let leading: usize = match skip_empty_lines(reader, &self.config) {
            Ok((leading, _)) => leading,
            Err(e) => {
                return Err(e);
            },
        };
        let ghost later = reader.rest();
        let ghost middle = *reader;
        proof {
            readable_bytes(c);
            let i = (n - leading) as nat;
            assert(in_chunk(later, reader.left()) == i);
            assert(i > 0 ==> !c.terminator.ends(rest[leading as int]));
            search_behind_blank(c, rest, leading as nat, i);
            search_accepts(c, State::FieldStart, later, i);
        }
        match find_record_start(reader, &self.config, Assumption::OutOfQuotes, false) {
            Ok(Some(off)) => {
                assert(later.skip(off as int) =~= rest.skip(leading + off));
                Ok(Some(leading + off))
            },
            Ok(None) => {
                proof {
                    let k = choose|k: int| #[trigger] advanced(middle, *reader, k);
                    assert(later.skip(k) =~= rest.skip(leading + k));
                    assert(advanced(*old(reader), *reader, leading + k));
                }
                Ok(None)
            },
            Err(e) => Err(e),
        }
    }

    fn parse_from<
        S,
        O: Output + ?Sized,
        A: Accumulator<S, O>,
        R: ChunkReader,
    >(&self, reader: &mut R, base: usize, fold: &mut Fold<S, O, A>) -> (r: crate::Result<
        Option<usize>,
    >) {
        proof {
            readable_bytes(self.config);
        }
        // No quote character means no in-quotes masks, so the cheaper
        // single-stream stepper applies.
        let driver = ChunkDriver::new(base);
        if self.config.quote.is_none() {
            let mut stepper = SimdCursorStepper::new(&self.config);
            driver.run(reader, &mut stepper, fold)
        } else {
            let mut stepper = SimdIndexStepper::new(&self.config);
            driver.run(reader, &mut stepper, fold)
        }
    }
}

} // verus!
