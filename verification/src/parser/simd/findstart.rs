//! The bitmask search for a record start: scans a chunk under a CSV-semantic
//! [`Assumption`] for the first `(N & D_struct)` bit, and under `strict`
//! rejects a quote that contradicts it — see [`StrictProbe`].

use vstd::prelude::*;

use super::bitmask::{
    below, both, compute_in_quotes, either, match_structural, neutral_pad, padded_vector,
    pulled_down, pushed_up, test_bit, without, StructuralMasks, VECTOR_BYTES,
};
use super::bitops::{bit, bits_lowest, bits_of_one};
use super::masks::{delim_at, inside, quote_at, term_at};
use super::scan::ScannerConfig;
use super::{chars_of, simd_objection};
use crate::config::{distinct_bytes, Config, QuoteHandling};
use crate::error::{lifted, Error, Position};
use crate::io::ChunkReader;
use crate::parser::chunk::{
    advanced, entry, in_chunk, searched, strict_probe_of, toggled, Assumption,
};
use crate::parser::dfa::table::State;
use crate::parser::grammar::{search, search_step, search_stopped, Found};

verus! {

/// Initial in-quotes carry for the M-bitmask: the M-state of the byte
/// just before the chunk. Mid-escape, a doubled quote has already
/// toggled M back out, so only a distinct escape byte carries `true`.
pub fn initial_carry(config: &Config, assumption: Assumption) -> (r: bool)
    ensures
        r == match assumption {
            Assumption::OutOfQuotes => false,
            Assumption::InQuotes => true,
            Assumption::InQuotesAfterEscape => config.quote != config.escape,
        },
{
    match assumption {
        Assumption::OutOfQuotes => false,
        Assumption::InQuotes => true,
        Assumption::InQuotesAfterEscape => match (config.quote, config.escape) {
            (Some(q), Some(e)) => q != e,
            (None, None) => false,
            _ => true,
        },
    }
}

/// Inside quotes after `n` bytes, where the first of them is inside if `start`.
pub open spec fn within(k: ScannerConfig, x: Seq<u8>, start: bool, n: int) -> bool {
    start != inside(k, x, n)
}

/// A byte that a field can border on.
pub open spec fn border(k: ScannerConfig, x: Seq<u8>, i: int) -> bool {
    delim_at(k, x, i) || term_at(k, x, i) || quote_at(k, x, i)
}

/// The byte at `i` shows the assumption to be wrong: an opening quote behind
/// content, or content behind a closing quote.
pub open spec fn misplaced(k: ScannerConfig, x: Seq<u8>, start: bool, i: int) -> bool {
    ||| 0 < i && quote_at(k, x, i) && within(k, x, start, i + 1) && !border(k, x, i - 1)
    ||| 0 < i < x.len() && quote_at(k, x, i - 1) && !within(k, x, start, i) && !border(k, x, i)
}

/// A terminator outside quotes.
pub open spec fn stop_from(k: ScannerConfig, x: Seq<u8>, start: bool, i: int) -> bool {
    term_at(k, x, i) && !within(k, x, start, i + 1)
}

/// A dialect that the bitmask parser reads, with distinct control bytes.
pub open spec fn readable(c: Config) -> bool {
    &&& simd_objection(c) is None
    &&& c.distinct()
    &&& c.escape is Some ==> c.quote is Some
}

/// A dialect whose record boundaries the bitmasks show: its control bytes differ,
/// and the quote is the only escape.
pub open spec fn seekable(c: Config) -> bool {
    c.distinct() && (c.escape is Some ==> c.escape == c.quote)
}

/// The control bytes of such a dialect differ.
pub proof fn seekable_bytes(c: Config)
    requires
        seekable(c),
    ensures
        c.quote != Some(c.delimiter),
        !c.terminator.ends(c.delimiter),
        c.quote matches Some(q) ==> !c.terminator.ends(q),
        seekable(toggled(c)),
        chars_of(toggled(c)) == chars_of(c),
        forall|b: u8| #[trigger]
            c.terminator.ends(b) <==> b == chars_of(c).term || chars_of(c).term_b == Some(b),
{
    distinct_bytes(c);
    let t = toggled(c);
    assert(t.controls() == c.controls());
    assert forall|i: int, j: int| 0 <= i < j < 6 implies !#[trigger] t.clashes(i, j) by {
        assert(!c.clashes(i, j));
    }
}

/// The control bytes of a readable dialect differ.
pub proof fn readable_bytes(c: Config)
    requires
        readable(c),
    ensures
        seekable(c),
        c.quote != Some(c.delimiter),
        !c.terminator.ends(c.delimiter),
        c.quote matches Some(q) ==> !c.terminator.ends(q),
        c.quote_handling == QuoteHandling::Toggle,
        c.comment is None,
        !c.trim,
        c.field_count is Some,
        c.escape is Some ==> c.escape == c.quote,
        toggled(c) == c,
        forall|b: u8| #[trigger]
            c.terminator.ends(b) <==> b == chars_of(c).term || chars_of(c).term_b == Some(b),
{
    seekable_bytes(c);
}

/// The state a search is in follows from the quotes so far and the last byte.
pub open spec fn state_after(c: Config, x: Seq<u8>, start: bool, n: int) -> State {
    let k = chars_of(c);
    if within(k, x, start, n) {
        State::InQuotedField
    } else if n <= 0 {
        State::FieldStart
    } else if delim_at(k, x, n - 1) {
        State::FieldStart
    } else if quote_at(k, x, n - 1) {
        State::AfterClosingQuote
    } else {
        State::InField
    }
}

/// The first `n` bytes hold no terminator outside quotes, and no misplaced byte
/// if such are looked for.
pub open spec fn quiet(k: ScannerConfig, x: Seq<u8>, start: bool, strict: bool, n: int) -> bool {
    &&& forall|i: int| 0 <= i < n ==> !#[trigger] stop_from(k, x, start, i)
    &&& strict ==> forall|i: int| 0 <= i < n ==> !#[trigger] misplaced(k, x, start, i)
}

/// A search stops on the first terminator outside quotes, or before it on a
/// misplaced byte if it probes.
proof fn search_events(c: Config, strict: bool, start: bool, x: Seq<u8>, n: nat)
    requires
        seekable(c),
        c.quote_handling == QuoteHandling::Toggle,
        n <= x.len(),
        quiet(chars_of(c), x, start, strict, n as int),
    ensures
        ({
            let from = if start {
                State::InQuotedField
            } else {
                State::FieldStart
            };
            let s = search(c, strict_probe_of(false, strict), from, x, n);
            &&& s.stop is None
            &&& s.state == state_after(c, x, start, n as int)
            &&& n < x.len() ==> {
                let t = search(c, strict_probe_of(false, strict), from, x, n + 1);
                &&& stop_from(chars_of(c), x, start, n as int) ==> t.stop == Some(
                    Found::Start(n as int),
                )
                &&& strict && misplaced(chars_of(c), x, start, n as int) ==> t.stop == Some(
                    Found::Rejected(n as int),
                )
            }
        }),
    decreases n,
{
    seekable_bytes(c);
    let k = chars_of(c);
    let probe = strict_probe_of(false, strict);
    let from = if start {
        State::InQuotedField
    } else {
        State::FieldStart
    };
    if n > 0 {
        let m = (n - 1) as nat;
        search_events(c, strict, start, x, m);
        let s = search(c, probe, from, x, m);
        let b = x[m as int];
        assert(!stop_from(k, x, start, m as int));
        assert(strict ==> !misplaced(k, x, start, m as int));
        assert(search(c, probe, from, x, n) == search_step(c, probe, s, b, m as int));
        assert(inside(k, x, n as int) == (inside(k, x, m as int) != quote_at(k, x, m as int)));
    }
    if n < x.len() {
        let s = search(c, probe, from, x, n);
        let b = x[n as int];
        assert(search(c, probe, from, x, n + 1) == search_step(c, probe, s, b, n as int));
        assert(inside(k, x, n as int + 1) == (inside(k, x, n as int) != quote_at(k, x, n as int)));
    }
}

/// Strict-probe error at a chunk-relative offset; the scheduler rebases
/// it via `Error::with_base`.
fn strict_err(byte_offset: usize) -> (r: Error)
    ensures
        r == (Error::InvalidQuote { position: Position { byte_offset } }),
{
    Error::InvalidQuote { position: Position { byte_offset } }
}

/// The position of the lowest set bit.
fn first_set(mask: u64) -> (r: Option<usize>)
    ensures
        match r {
            Some(j) => j < 64 && bit(mask, j as int) && forall|i: int|
                0 <= i < j ==> !#[trigger] bit(mask, i),
            None => forall|i: int| 0 <= i < 64 ==> !#[trigger] bit(mask, i),
        },
{
    if mask == 0 {
        proof {
            assert forall|i: int| 0 <= i < 64 implies !#[trigger] bit(0, i) by {
                bits_of_one(0, i);
            }
        }
        None
    } else {
        proof {
            bits_lowest(mask);
        }
        Some(mask.trailing_zeros() as usize)
    }
}

/// Cross-vector state for the strict probe: the two neighbour bits that
/// straddle 64-byte vectors.
struct StrictProbe {
    /// Whether the previous vector's last real byte was a field boundary.
    prev_last_bnd: bool,
    /// A closing quote parked in bit 63, with the chunk-relative offset
    /// of the byte that has to follow it.
    pending_closer_msb: Option<usize>,
}

/// The masks of the vector of `x` at offset `t`, of which `avail` bytes are real.
spec fn vector_of(
    s: StructuralMasks,
    m: u64,
    k: ScannerConfig,
    x: Seq<u8>,
    start: bool,
    t: int,
    avail: int,
) -> bool {
    &&& 0 <= t
    &&& 0 < avail <= 64
    &&& t + avail <= x.len()
    &&& forall|j: int|
        0 <= j < 64 ==> #[trigger] bit(s.delim, j) == (j < avail && delim_at(k, x, t + j))
    &&& forall|j: int|
        0 <= j < 64 ==> #[trigger] bit(s.term, j) == (j < avail && term_at(k, x, t + j))
    &&& forall|j: int|
        0 <= j < 64 ==> #[trigger] bit(s.quote, j) == (j < avail && quote_at(k, x, t + j))
    &&& forall|j: int|
        0 <= j < avail ==> #[trigger] bit(m, j) == within(k, x, start, t + j + 1)
}

impl StrictProbe {
    /// The probe has seen the bytes before offset `t`.
    spec fn at(self, k: ScannerConfig, x: Seq<u8>, start: bool, t: int) -> bool {
        &&& self.prev_last_bnd == (t == 0 || border(k, x, t - 1))
        &&& self.pending_closer_msb == (if t > 0 && quote_at(k, x, t - 1) && !within(
            k,
            x,
            start,
            t,
        ) {
            Some(t as usize)
        } else {
            None
        })
    }

    fn new() -> (r: Self)
        ensures
            r.prev_last_bnd,
            r.pending_closer_msb is None,
    {
        Self { prev_last_bnd: true, pending_closer_msb: None }
    }

    /// Inspect one vector, returning `Some(err)` if it proves the assumed
    /// in-quotes state impossible: an opener without a preceding boundary,
    /// or a closer without a following one (`""` pairs count as one).
    fn check(
        &mut self,
        s: &StructuralMasks,
        m: u64,
        avail: usize,
        term_bit: Option<usize>,
        total_consumed: usize,
        Ghost(k): Ghost<ScannerConfig>,
        Ghost(x): Ghost<Seq<u8>>,
        Ghost(start): Ghost<bool>,
    ) -> (r: Option<Error>)
        requires
            x.len() <= usize::MAX,
            vector_of(*s, m, k, x, start, total_consumed as int, avail as int),
            old(self).at(k, x, start, total_consumed as int),
            term_bit matches Some(j) ==> j < avail && stop_from(k, x, start, total_consumed + j),
            k.quote matches Some(q) ==> q != k.delim && q != k.term && k.term_b != Some(q),
        ensures
            final(self).prev_last_bnd == old(self).prev_last_bnd,
            ({
                let t = total_consumed as int;
                let cutoff = match term_bit {
                    Some(j) => j as int,
                    None => avail as int,
                };
                match r {
                    Some(e) => exists|p: int|
                        {
                            &&& t <= p < t + cutoff
                            &&& #[trigger] misplaced(k, x, start, p)
                            &&& e == (Error::InvalidQuote {
                                position: Position { byte_offset: p as usize },
                            })
                            &&& forall|i: int|
                                t <= i < p ==> !#[trigger] misplaced(k, x, start, i)
                        },
                    None => {
                        &&& forall|i: int|
                            t <= i < t + cutoff ==> !#[trigger] misplaced(k, x, start, i)
                        &&& avail == 64 ==> final(self).pending_closer_msb == (if quote_at(
                            k,
                            x,
                            t + 63,
                        ) && !within(k, x, start, t + 64) {
                            Some((t + 64) as usize)
                        } else {
                            None
                        })
                    },
                }
            }),
    {
        let ghost t = total_consumed as int;
        let bnd: u64 = either(either(s.delim, s.term), s.quote);
        proof {
            assert forall|j: int| 0 <= j < 64 implies #[trigger] bit(bnd, j) == (j < avail
                && border(k, x, t + j)) by {
                assert(bit(s.delim, j) == (j < avail && delim_at(k, x, t + j)));
                assert(bit(s.term, j) == (j < avail && term_at(k, x, t + j)));
                assert(bit(s.quote, j) == (j < avail && quote_at(k, x, t + j)));
            }
        }
        // Resolve a deferred bit-63 closer against this vector's byte 0.
        if let Some(pos) = self.pending_closer_msb.take() {
            let first_bnd = test_bit(bnd, 0);
            assert(first_bnd == border(k, x, t + 0));
            if !first_bnd {
                assert(misplaced(k, x, start, t));
                proof {
                    if let Some(j) = term_bit {
                        assert(j != 0);
                    }
                }
                return Some(strict_err(pos));
            }
        }
        let openers: u64 = both(s.quote, m);
        let closers: u64 = without(s.quote, m);
        let left_bnd: u64 = pushed_up(bnd, self.prev_last_bnd);
        let right_bnd: u64 = pulled_down(bnd, false);
        let bad_openers: u64 = without(openers, left_bnd);
        let mut bad_closers: u64 = without(closers, right_bnd);
        let ghost all_closers = bad_closers;
        // A bit-63 closer's right neighbour is in the next vector.
        if avail == VECTOR_BYTES {
            if test_bit(bad_closers, 63) {
                bad_closers = both(bad_closers, below(63));
                self.pending_closer_msb = Some(total_consumed + VECTOR_BYTES);
            }
        } else {
            // A tail vector's last byte borders the chunk/EOF edge.
            bad_closers = both(bad_closers, below(avail - 1));
        }
        // Bad bits past the terminator belong to the next record.
        let cutoff: usize = match term_bit {
            Some(j) => j,
            None => avail,
        };
        let mask_below: u64 = below(cutoff);
        let bad_openers: u64 = both(bad_openers, mask_below);
        let bad_closers: u64 = both(bad_closers, mask_below);
        let opener = first_set(bad_openers);
        // Like the DFA, anchor a misplaced closer on the byte after it.
        let closer = first_set(bad_closers);
        proof {
            assert forall|j: int| 0 <= j < 64 implies #[trigger] bit(bad_openers, j) == (j < cutoff
                && quote_at(k, x, t + j) && within(k, x, start, t + j + 1) && t + j > 0 && !border(
                k,
                x,
                t + j - 1,
            )) by {
                if j > 0 {
                    assert(bit(bnd, j - 1) == (j - 1 < avail && border(k, x, t + (j - 1))));
                }
                if j < avail {
                    assert(bit(m, j) == within(k, x, start, t + j + 1));
                }
            }
            assert forall|j: int| 0 <= j < 64 implies #[trigger] bit(bad_closers, j) == (j < cutoff
                && j + 1 < avail && quote_at(k, x, t + j) && !within(k, x, start, t + j + 1)
                && !border(k, x, t + j + 1)) by {
                if j + 1 < 64 {
                    assert(bit(bnd, j + 1) == (j + 1 < avail && border(k, x, t + (j + 1))));
                }
                if j < avail {
                    assert(bit(m, j) == within(k, x, start, t + j + 1));
                }
            }
            assert(bit(all_closers, 63) == (avail == 64 && quote_at(k, x, t + 63) && !within(
                k,
                x,
                start,
                t + 64,
            ))) by {
                if avail == 64 {
                    assert(bit(m, 63) == within(k, x, start, t + 63 + 1));
                }
            }
            // a closer before the cutoff is followed by a byte before the cutoff
            assert forall|j: int| 0 <= j < 64 && bit(bad_closers, j) implies j + 1 < cutoff by {
                if j + 1 == cutoff {
                    assert(term_at(k, x, t + (j + 1)));
                }
            }
            assert forall|i: int| t <= i < t + cutoff && misplaced(k, x, start, i) implies bit(
                bad_openers,
                i - t,
            ) || (i > t && bit(bad_closers, i - t - 1)) by {
                assert(t + (i - t) == i);
                if i > t {
                    assert(t + (i - t - 1) + 1 == i);
                    assert(t + (i - t - 1) == i - 1);
                }
            }
        }
        let at: Option<usize> = match (opener, closer) {
            (Some(a), Some(b)) => if a <= b + 1 {
                Some(a)
            } else {
                Some(b + 1)
            },
            (Some(a), None) => Some(a),
            (None, Some(b)) => Some(b + 1),
            (None, None) => None,
        };
        match at {
            Some(j) => {
                proof {
                    let p = t + j;
                    assert(misplaced(k, x, start, p)) by {
                        if opener == Some(j) {
                            assert(bit(bad_openers, j as int));
                            assert(t + j == p);
                        } else {
                            assert(bit(bad_closers, j - 1));
                            assert(t + (j - 1) == p - 1);
                            assert(t + (j - 1) + 1 == p);
                        }
                    }
                }
                Some(strict_err(total_consumed + j))
            },
            None => None,
        }
    }

    /// Carry the last byte forward as the next vector's left neighbour.
    fn advance(&mut self, s: &StructuralMasks)
        ensures
            final(self).prev_last_bnd == (bit(s.delim, 63) || bit(s.term, 63) || bit(s.quote, 63)),
            final(self).pending_closer_msb == old(self).pending_closer_msb,
    {
        self.prev_last_bnd = test_bit(s.delim, 63) || test_bit(s.term, 63) || test_bit(s.quote, 63);
    }
}

/// Scan forward under `assumption` for the first out-of-quotes record
/// terminator, consuming the bytes before it and returning its offset,
/// relative to the reader's position. `None` if the chunk has none.
#[verifier::rlimit(100)]
pub fn find_record_start<R: ChunkReader>(
    reader: &mut R,
    config: &Config,
    assumption: Assumption,
    strict: bool,
) -> (r: crate::Result<Option<usize>>)
    requires
        seekable(*config),
        old(reader).wf(),
        old(reader).rest().len() <= usize::MAX,
    ensures
        searched(
            *old(reader),
            *final(reader),
            search(
                toggled(*config),
                strict_probe_of(false, strict),
                entry(false, *config, assumption),
                old(reader).rest(),
                in_chunk(old(reader).rest(), old(reader).left()),
            ).stop,
            r,
            VECTOR_BYTES as nat,
        ),
{
    let (term, term_b) = config.terminator.bytes();
    let delim: u8 = config.delimiter;
    let quote = config.quote;
    let start = initial_carry(config, assumption);
    let mut carry = start;
    let mut total_consumed: usize = 0;
    let mut probe = StrictProbe::new();
    let ghost c = toggled(*config);
    let ghost k = chars_of(c);
    let ghost rest = reader.rest();
    let ghost left = reader.left();
    let ghost n = in_chunk(rest, left);
    let ghost p = strict_probe_of(false, strict);
    let ghost from = entry(false, *config, assumption);
    proof {
        seekable_bytes(*config);
        seekable_bytes(c);
        assert(rest.skip(0) =~= rest);
        assert(from == (if start {
            State::InQuotedField
        } else {
            State::FieldStart
        }));
    }
    loop
        invariant
            seekable(c),
            c == toggled(*config),
            k == chars_of(c),
            k.quote == quote,
            k.delim == delim,
            k.term == term,
            k.term_b == term_b,
            k.quote matches Some(q) ==> q != k.delim && q != k.term && k.term_b != Some(q),
            p == strict_probe_of(false, strict),
            from == entry(false, *config, assumption),
            from == (if start {
                State::InQuotedField
            } else {
                State::FieldStart
            }),
            rest == old(reader).rest(),
            left == old(reader).left(),
            rest.len() <= usize::MAX,
            n == in_chunk(rest, left),
            reader.wf(),
            reader.reach() >= old(reader).reach(),
            reader.most() == old(reader).most(),
            total_consumed <= n,
            reader.rest() == rest.skip(total_consumed as int),
            reader.left() == left - total_consumed,
            carry == within(k, rest, start, total_consumed as int),
            strict ==> probe.at(k, rest, start, total_consumed as int),
            quiet(k, rest, start, strict, total_consumed as int),
        decreases n - total_consumed,
    {
        let ghost t = total_consumed as int;
        // Near EOF `buffer()` is shorter; the `scan_end` cap covers that.
        if let Err(e) = lifted(reader.fill(VECTOR_BYTES)) {
            return Err(e);
        }
        let chunk_end: usize = reader.remaining_in_chunk();
        let buf = reader.buffer();
        let len: usize = buf.len();
        if len == 0 || chunk_end == 0 {
            proof {
                assert(t == n);
                search_events(c, strict, start, rest, n);
                assert(advanced(*old(reader), *reader, t));
            }
            return Ok(None);
        }
        // Never read past the chunk boundary; the merge phase reparses a
        // record that straddles chunks.
        let scan_end: usize = if chunk_end < len {
            chunk_end
        } else {
            len
        };
        let avail: usize = if scan_end < VECTOR_BYTES {
            scan_end
        } else {
            VECTOR_BYTES
        };
        proof {
            assert forall|i: int| 0 <= i < len implies #[trigger] buf@[i] == rest[t + i] by {
                assert(buf@[i] == reader.rest()[i]);
            }
        }
        let (s, m, new_carry) = masks_of(
            buf,
            avail,
            delim,
            term,
            term_b,
            quote,
            carry,
            Ghost(k),
            Ghost(rest),
            Ghost(start),
            Ghost(t),
        );
        let d_struct: u64 = s.structural_delims(m);
        let structural_term: u64 = both(s.term, d_struct);
        proof {
            assert forall|j: int| 0 <= j < 64 implies #[trigger] bit(structural_term, j) == (j
                < avail && stop_from(k, rest, start, t + j)) by {
                if j < avail {
                    assert(bit(m, j) == within(k, rest, start, t + j + 1));
                }
            }
        }
        // First out-of-quotes terminator within the real (non-pad) bytes.
        let term_bit = first_set(structural_term);
        if strict {
            let found = probe.check(
                &s,
                m,
                avail,
                term_bit,
                total_consumed,
                Ghost(k),
                Ghost(rest),
                Ghost(start),
            );
            if let Some(e) = found {
                proof {
                    let q = choose|q: int|
                        {
                            &&& t <= q < t + avail
                            &&& #[trigger] misplaced(k, rest, start, q)
                            &&& e == (Error::InvalidQuote {
                                position: Position { byte_offset: q as usize },
                            })
                            &&& forall|i: int|
                                t <= i < q ==> !#[trigger] misplaced(k, rest, start, i)
                            &&& term_bit matches Some(j) ==> q < t + j
                        };
                    quiet_further(k, rest, start, strict, t, q, structural_term, avail as int);
                    search_events(c, strict, start, rest, q as nat);
                    search_stopped(c, p, from, rest, (q + 1) as nat, n);
                }
                return Err(e);
            }
        }
        if let Some(bit_at) = term_bit {
            proof {
                let q = t + bit_at;
                assert(bit(structural_term, bit_at as int));
                quiet_further(k, rest, start, strict, t, q, structural_term, avail as int);
                search_events(c, strict, start, rest, q as nat);
                search_stopped(c, p, from, rest, (q + 1) as nat, n);
                assert(rest.skip(t).skip(bit_at as int) =~= rest.skip(q));
            }
            reader.consume(bit_at);
            return Ok(Some(total_consumed + bit_at));
        }
        proof {
            quiet_further(k, rest, start, strict, t, t + avail, structural_term, avail as int);
        }
        if avail < VECTOR_BYTES {
            // Tail vector with no terminator: the merge path takes over.
            proof {
                assert(t + avail == n);
                search_events(c, strict, start, rest, n);
                assert(advanced(*old(reader), *reader, t));
            }
            return Ok(None);
        }
        carry = new_carry;
        if strict {
            probe.advance(&s);
        }
        proof {
            assert(bit(m, 63) == within(k, rest, start, t + 63 + 1));
            assert(rest.skip(t).skip(64) =~= rest.skip(t + 64));
        }
        reader.consume(VECTOR_BYTES);
        total_consumed = total_consumed + VECTOR_BYTES;
    }
}

/// What a vector shows, further on.
proof fn quiet_further(
    k: ScannerConfig,
    x: Seq<u8>,
    start: bool,
    strict: bool,
    t: int,
    q: int,
    stops: u64,
    avail: int,
)
    requires
        quiet(k, x, start, strict, t),
        t <= q <= t + avail <= t + 64,
        forall|j: int|
            0 <= j < 64 ==> #[trigger] bit(stops, j) == (j < avail && stop_from(
                k,
                x,
                start,
                t + j,
            )),
        forall|j: int| 0 <= j < q - t ==> !#[trigger] bit(stops, j),
        strict ==> forall|i: int| t <= i < q ==> !#[trigger] misplaced(k, x, start, i),
    ensures
        quiet(k, x, start, strict, q),
{
    assert forall|i: int| 0 <= i < q implies !#[trigger] stop_from(k, x, start, i) by {
        if i >= t {
            assert(!bit(stops, i - t));
            assert(t + (i - t) == i);
        }
    }
}

/// The masks of the next vector, of which `avail` bytes are real.
fn masks_of(
    buf: &[u8],
    avail: usize,
    delim: u8,
    term: u8,
    term_b: Option<u8>,
    quote: Option<u8>,
    carry: bool,
    Ghost(k): Ghost<ScannerConfig>,
    Ghost(x): Ghost<Seq<u8>>,
    Ghost(start): Ghost<bool>,
    Ghost(t): Ghost<int>,
) -> (r: (StructuralMasks, u64, bool))
    requires
        0 < avail <= 64,
        avail <= buf@.len(),
        0 <= t,
        t + avail <= x.len(),
        forall|i: int| 0 <= i < buf@.len() ==> #[trigger] buf@[i] == x[t + i],
        k.quote == quote,
        k.delim == delim,
        k.term == term,
        k.term_b == term_b,
        carry == within(k, x, start, t),
    ensures
        vector_of(r.0, r.1, k, x, start, t, avail as int),
        r.2 == bit(r.1, 63),
{
    // The neutral pad produces no structural bits, so any terminator
    // found sits at a real input position.
    let pad: u8 = neutral_pad(delim, term, term_b, quote);
    let v: [u8; 64] = padded_vector(buf, avail, pad);
    let s = match_structural(&v, delim, term, term_b, quote);
    let (m, new_carry) = compute_in_quotes(s.quote, carry);
    proof {
        assert forall|j: int| 0 <= j < 64 implies #[trigger] bit(s.delim, j) == (j < avail
            && delim_at(k, x, t + j)) by {
            if j < avail {
                assert(v@[j] == x[t + j]);
            }
        }
        assert forall|j: int| 0 <= j < 64 implies #[trigger] bit(s.term, j) == (j < avail
            && term_at(k, x, t + j)) by {
            if j < avail {
                assert(v@[j] == x[t + j]);
            }
        }
        assert forall|j: int| 0 <= j < 64 implies #[trigger] bit(s.quote, j) == (j < avail
            && quote_at(k, x, t + j)) by {
            if j < avail {
                assert(v@[j] == x[t + j]);
            }
        }
        assert forall|j: int| 0 <= j < avail implies #[trigger] bit(m, j) == within(
            k,
            x,
            start,
            t + j + 1,
        ) by {
            inside_part(k, x, t, s.quote, j, avail as int);
        }
    }
    (s, m, new_carry)
}

/// The in-quotes state inside a vector that is only in part the input's.
proof fn inside_part(k: ScannerConfig, x: Seq<u8>, a: int, q: u64, j: int, avail: int)
    requires
        0 <= a,
        -1 <= j < avail <= 64,
        forall|i: int| 0 <= i < 64 ==> #[trigger] bit(q, i) == (i < avail && quote_at(k, x, a + i)),
    ensures
        inside(k, x, a + j + 1) == (inside(k, x, a) != super::bitmask::odd_up_to(q, j)),
    decreases j + 1,
{
    if j >= 0 {
        inside_part(k, x, a, q, j - 1, avail);
        assert(bit(q, j) == quote_at(k, x, a + j));
    }
}

} // verus!
