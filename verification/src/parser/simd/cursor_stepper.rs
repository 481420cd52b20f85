//! Quote-free bitmask stepper, the single-stream `cell_start` path: a
//! vector's boundaries are just `delim | term`, collapsing the
//! [`super::scan::Scanner`] pipeline to one stream, held back a vector.

use vstd::prelude::*;
use vstd::utf8::valid_utf8;

use super::bitmask::{
    either, head_padded_prologue, match_structural, neutral_pad, padded_vector,
    terminator_run_ends, test_bit, Prologue, VECTOR_BYTES,
};
use super::bitops::bit;
use super::chars_of;
use super::faults::closing_terminator;
use super::fieldcount::FieldCounter;
use super::fields::{
    field_start, keep, pieces, pieces_grow, rank, rank_is_pieces, regular, run_begin, spots,
    spots_are, spots_same, starts_clean,
};
use super::findstart::{readable, readable_bytes};
use super::handoff;
use super::index::{extend_offsets, shift_down};
use super::index_stepper::{scanner_config_of, COMPACT_THRESHOLD, EMIT_BATCH_FIELDS};
use super::masks::{
    before_edge, behind_edge, cut_at, delim_at, gone, inside, quote_at, run_end, run_start, shuts,
    stop_at, term_at,
};
use super::progress::{
    all_out, arity_error, closed_input, closed_progress, held_back, irregular_is_faulty,
    next_record, Progress,
};
use super::scan::ScannerConfig;
use super::stream::{
    dropped, extended, from_negative, in_step_is_regular, mask_at_start, nothing_behind,
    rank_to_end, shifted,
};
use crate::config::{is_term, Config};
use crate::error::Error;
use crate::io::monus;
use crate::parser::driver::{turned_down, ChunkStepper, Pass, StepCtx, StepResult};
use crate::parser::fold::{cut, in_turn, spans_within, Accumulator, Fold};
use crate::parser::grammar::{beyond, outcome, placed, scan, Failure, Record};
use crate::parser::output::Output;
use crate::parser::text::{cut_at_ascii, push_ascii, scan_text};

verus! {

/// The boundaries before `i`: the delimiters, and the last terminator of each run.
pub open spec fn bound_spots(k: ScannerConfig, x: Seq<u8>, i: int) -> Seq<int> {
    spots(|j: int| behind_edge(k, x, j), 0, i)
}

/// Without quotes nothing is quoted.
proof fn never_inside(k: ScannerConfig, x: Seq<u8>, i: int)
    requires
        k.quote is None,
    ensures
        !inside(k, x, i),
    decreases i,
{
    if i > 0 {
        never_inside(k, x, i - 1);
    }
}

/// Without quotes every delimiter cuts and every terminator stops.
proof fn plain_masks(k: ScannerConfig, x: Seq<u8>, i: int)
    requires
        k.quote is None,
    ensures
        cut_at(k, x, i) == delim_at(k, x, i),
        stop_at(k, x, i) == term_at(k, x, i),
        !gone(k, x, i),
        !shuts(k, x, i),
{
    never_inside(k, x, i + 1);
}

/// Without quotes a field is kept whole.
proof fn keep_plain(k: ScannerConfig, x: Seq<u8>, b: int, e: int)
    requires
        k.quote is None,
        0 <= b <= e <= x.len(),
    ensures
        keep(k, x, b, e) == x.subrange(b, e),
    decreases e - b,
{
    if b < e {
        keep_plain(k, x, b, e - 1);
        plain_masks(k, x, e - 1);
        assert(x.subrange(b, e) =~= x.subrange(b, e - 1).push(x[e - 1]));
    } else {
        assert(x.subrange(b, e) =~= seq![]);
    }
}

/// The boundaries are numbered by their rank.
proof fn spot_rank(k: ScannerConfig, x: Seq<u8>, i: int)
    ensures
        bound_spots(k, x, i).len() == rank(k, x, i),
        forall|m: int|
            0 <= m < bound_spots(k, x, i).len() ==> 0 <= (#[trigger] bound_spots(k, x, i)[m]) < i
                && behind_edge(k, x, bound_spots(k, x, i)[m]) && rank(
                k,
                x,
                bound_spots(k, x, i)[m],
            ) == m,
    decreases i,
{
    if i > 0 {
        spot_rank(k, x, i - 1);
    }
}

/// Where the rank stays there is no boundary.
proof fn same_rank(k: ScannerConfig, x: Seq<u8>, a: int, b: int)
    requires
        0 <= a <= b,
    ensures
        rank(k, x, a) <= rank(k, x, b),
        rank(k, x, a) == rank(k, x, b) ==> forall|i: int|
            a <= i < b ==> !#[trigger] behind_edge(k, x, i),
    decreases b - a,
{
    if a < b {
        same_rank(k, x, a, b - 1);
    }
}

/// Between two boundaries lies one field.
proof fn clear_between(k: ScannerConfig, x: Seq<u8>, a: int, b: int)
    requires
        0 <= a <= b,
        rank(k, x, a) == rank(k, x, b),
        field_start(k, x, a) == a,
        !(stop_at(k, x, b - 1) && stop_at(k, x, b)),
    ensures
        field_start(k, x, b) == a,
    decreases b - a,
{
    if a < b {
        same_rank(k, x, a, b);
        assert(!behind_edge(k, x, b - 1));
        same_rank(k, x, a, b - 1);
        clear_between(k, x, a, b - 1);
    }
}

/// A run of terminators, from its last one.
proof fn run_of(c: Config, x: Seq<u8>, e: int)
    requires
        readable(c),
        stop_at(chars_of(c), x, e),
    ensures
        ({
            let k = chars_of(c);
            let j = run_begin(k, x, e + 1);
            &&& 0 <= j <= e
            &&& run_start(k, x, j)
            &&& forall|i: int| j <= i <= e ==> #[trigger] stop_at(k, x, i)
            &&& rank(k, x, j) == rank(k, x, e)
        }),
    decreases e,
{
    let k = chars_of(c);
    readable_bytes(c);
    assert(run_begin(k, x, e + 1) == run_begin(k, x, e));
    if e > 0 && stop_at(k, x, e - 1) {
        run_of(c, x, e - 1);
    }
}

/// Chunk stepper for the quote-free path.
/// [`super::index_stepper::SimdIndexStepper`] is the general one.
pub struct SimdCursorStepper {
    /// The dialect.
    config: Config,
    /// The bytes of the dialect.
    chars: ScannerConfig,
    /// Per-vector field-count verifier.
    field_counter: FieldCounter,
    /// True until [`head_padded_prologue`] has run, or been given up on.
    needs_align_prologue: bool,
    /// The held vector, resolved against the next one's terminator LSB.
    pending: Option<(u64, u64, usize)>,
    /// Boundary offsets of the published vectors; records stride by `n`.
    bounds: Vec<usize>,
    /// How many of the boundaries have been emitted.
    head: usize,
    /// Buffer offset where the in-flight field starts; the consume limit.
    cell_start: usize,
    /// Set once a terminator *run* is seen, taking the emit off its tight loop.
    has_runs: bool,
    /// Offset in the chunk of the last completed record's end.
    last_record_end: Option<usize>,
}

impl SimdCursorStepper {
    /// How far the stepper has come in `x` when `log` holds the records handed out.
    spec fn at(self, x: Seq<u8>, consumed: int, z: int, log: Seq<Record>) -> Progress {
        Progress { x, z, consumed, q: log.len() as int, rs: consumed + self.cell_start }
    }

    /// The parts that do not change, and the bounds of those that do.
    spec fn sound(self, g: Progress) -> bool {
        &&& g.sound(self.config)
        &&& self.config.quote is None
        &&& self.chars == chars_of(self.config)
        &&& self.field_counter.wf()
        &&& self.field_counter.fields() == self.config.field_count->0
        &&& g.rs == g.consumed + self.cell_start
    }

    /// The list holds the boundaries, from the next record on, and they are in order.
    spec fn listed(self, g: Progress) -> bool {
        let k = chars_of(self.config);
        let n = self.config.field_count->0 as int;
        let done = g.done(self.config);
        &&& self.head <= self.bounds@.len()
        &&& 0 <= done <= bound_spots(k, g.x, g.z).len()
        &&& shifted(self.bounds@.skip(self.head as int), g.consumed) == bound_spots(
            k,
            g.x,
            g.z,
        ).skip(done)
        &&& regular(k, g.x, n, g.z)
        &&& self.field_counter.seen() == rank(k, g.x, g.z) as int % n
        &&& !self.has_runs ==> forall|i: int|
            0 <= i < g.z && #[trigger] term_at(k, g.x, i) ==> !term_at(k, g.x, i + 1)
    }

    /// The records before the next one are out.
    spec fn caught_up(self, p: Pass, g: Progress, log: Seq<Record>) -> bool {
        let end = scan(self.config, p.boundary, g.x, g.rs as nat).last_end;
        g.caught_up(self.config, p, log, end) && self.last_record_end == placed(end, p.base)
    }

    /// The masks of a vector that starts at `a`.
    spec fn holds(self, x: Seq<u8>, a: int, delim: u64, term: u64) -> bool {
        let k = chars_of(self.config);
        &&& forall|j: int| 0 <= j < 64 ==> #[trigger] bit(delim, j) == delim_at(k, x, a + j)
        &&& forall|j: int| 0 <= j < 64 ==> #[trigger] bit(term, j) == term_at(k, x, a + j)
    }

    /// The vector that is held back is the one before the masks not yet known.
    spec fn holds_back(self, x: Seq<u8>, consumed: int, z: int) -> bool {
        match self.pending {
            None => z == -64,
            Some((delim, term, base)) => {
                &&& z > -64
                &&& self.holds(x, z, delim, term)
                &&& base == if z >= consumed {
                    z - consumed
                } else {
                    z - consumed + usize::MAX + 1
                }
            },
        }
    }

    /// Publish the boundaries of the vector that starts at buffer offset `base`.
    /// `false` if it shows a record with another number of fields.
    fn publish(
        &mut self,
        delim: u64,
        term: u64,
        base: usize,
        next_is_term: bool,
        Ghost(g): Ghost<Progress>,
    ) -> (r: bool)
        requires
            old(self).sound(g),
            old(self).listed(g),
            old(self).holds(g.x, g.z, delim, term),
            next_is_term == term_at(chars_of(old(self).config), g.x, g.z + 64),
            g.z <= g.x.len(),
            g.x.len() - g.consumed <= usize::MAX,
            base == (if g.z >= g.consumed {
                g.z - g.consumed
            } else {
                g.z - g.consumed + usize::MAX + 1
            }),
        ensures
            *final(self) == (SimdCursorStepper {
                field_counter: final(self).field_counter,
                bounds: final(self).bounds,
                has_runs: final(self).has_runs,
                ..*old(self)
            }),
            final(self).sound(g),
            r == regular(
                chars_of(old(self).config),
                g.x,
                old(self).config.field_count->0 as int,
                g.z + 64,
            ),
            r ==> {
                let g2 = Progress { z: g.z + 64, ..g };
                final(self).sound(g2) && final(self).listed(g2)
            },
    {
        let ghost c = self.config;
        let ghost k = chars_of(c);
        let ghost x = g.x;
        let ghost test = |i: int| behind_edge(k, x, i);
        let run_end_mask: u64 = terminator_run_ends(term, next_is_term);
        self.has_runs = self.has_runs || run_end_mask != term;
        let d_struct: u64 = either(delim, run_end_mask);
        proof {
            assert forall|j: int| 0 <= j < 64 implies #[trigger] bit(run_end_mask, j) == run_end(
                k,
                x,
                g.z + j,
            ) by {
                plain_masks(k, x, g.z + j);
                plain_masks(k, x, g.z + j + 1);
                if j < 63 {
                    assert(bit(term, j + 1) == term_at(k, x, g.z + (j + 1)));
                }
                assert(bit(term, j) == term_at(k, x, g.z + j));
            }
            assert forall|j: int| 0 <= j < 64 implies #[trigger] bit(d_struct, j) == behind_edge(
                k,
                x,
                g.z + j,
            ) by {
                plain_masks(k, x, g.z + j);
                assert(bit(run_end_mask, j) == run_end(k, x, g.z + j));
                assert(bit(delim, j) == delim_at(k, x, g.z + j));
            }
            in_step_is_regular(c, x, g.z, d_struct, run_end_mask);
            if !self.has_runs {
                assert forall|i: int| 0 <= i < g.z + 64 && #[trigger] term_at(
                    k,
                    x,
                    i,
                ) implies !term_at(k, x, i + 1) by {
                    if i >= g.z {
                        let j = i - g.z;
                        assert(bit(term, j) == term_at(k, x, g.z + j));
                        assert(bit(run_end_mask, j) == run_end(k, x, g.z + j));
                        plain_masks(k, x, i + 1);
                    }
                }
            }
        }
        if !self.field_counter.verify(d_struct, run_end_mask) {
            return false;
        }
        let ghost b0 = self.bounds@;
        extend_offsets(&mut self.bounds, d_struct, base);
        proof {
            let done = g.done(c);
            extended(b0, self.head as int, d_struct, base, test, g.z, g.consumed);
            from_negative(test, g.z, g.z + 64);
            let old_spots = bound_spots(k, x, g.z);
            let more = spots(test, g.z, g.z + 64);
            assert(bound_spots(k, x, g.z + 64) =~= old_spots + more);
            assert((old_spots + more).skip(done) =~= old_spots.skip(done) + more);
        }
        true
    }

    /// The boundaries of the next record, as the list has them.
    proof fn lemma_bounds(self, g: Progress, i: int)
        requires
            self.sound(g),
            self.listed(g),
            0 <= g.z <= g.x.len(),
            0 <= i < self.config.field_count->0,
            self.head + self.config.field_count->0 <= self.bounds@.len(),
        ensures
            ({
                let k = chars_of(self.config);
                let n = self.config.field_count->0 as int;
                let b = self.bounds@[self.head + i] + g.consumed;
                &&& g.rs <= b < g.z
                &&& rank(k, g.x, b) == g.done(self.config) + i
                &&& rank(k, g.x, b + 1) == g.done(self.config) + i + 1
                &&& behind_edge(k, g.x, b)
                &&& i < n - 1 ==> cut_at(k, g.x, b)
                &&& i == n - 1 ==> run_end(k, g.x, b)
                &&& i > 0 ==> self.bounds@[self.head + i - 1] + g.consumed < b
                &&& rank(k, g.x, g.rs) == g.done(self.config)
            }),
    {
        let c = self.config;
        let k = chars_of(c);
        let n = c.field_count->0 as int;
        let done = g.done(c);
        let s = bound_spots(k, g.x, g.z);
        let test = |j: int| behind_edge(k, g.x, j);
        let live = self.bounds@.skip(self.head as int);
        spot_rank(k, g.x, g.z);
        spots_are(test, 0, g.z);
        assert(shifted(live, g.consumed).len() == s.skip(done).len());
        assert(shifted(live, g.consumed)[i] == s.skip(done)[i]);
        assert(live[i] == self.bounds@[self.head + i]);
        let b = self.bounds@[self.head + i] + g.consumed;
        assert(b == s[done + i]);
        if i > 0 {
            assert(shifted(live, g.consumed)[i - 1] == s.skip(done)[i - 1]);
            assert(live[i - 1] == self.bounds@[self.head + i - 1]);
        }
        rank_is_pieces(c, g.x, g.rs);
        if b < g.rs {
            same_rank(k, g.x, b + 1, g.rs);
        }
        // which boundaries end a record
        assert(g.q * n == n * g.q) by (nonlinear_arith);
        if i < n - 1 {
            vstd::arithmetic::div_mod::lemma_mod_multiples_vanish(g.q, i + 1, n);
            vstd::arithmetic::div_mod::lemma_small_mod((i + 1) as nat, n as nat);
            assert((done + i + 1) % n != 0);
        } else {
            vstd::arithmetic::div_mod::lemma_mod_multiples_basic(g.q + 1, n);
            assert((g.q + 1) * n == done + n) by (nonlinear_arith)
                requires
                    done == g.q * n,
            ;
            assert((done + i + 1) % n == 0);
        }
        assert(behind_edge(k, g.x, b));
    }

    /// The fields of the next record, as the boundaries give them. Here `j` is
    /// the start of the run of terminators that ends it.
    proof fn lemma_field(self, g: Progress, j: int, i: int)
        requires
            self.sound(g),
            self.listed(g),
            0 <= g.z <= g.x.len(),
            0 <= i < self.config.field_count->0,
            self.head + self.config.field_count->0 <= self.bounds@.len(),
            j == run_begin(
                chars_of(self.config),
                g.x,
                self.bounds@[self.head + self.config.field_count->0 - 1] + g.consumed + 1,
            ),
        ensures
            ({
                let c = self.config;
                let k = chars_of(c);
                let n = c.field_count->0 as int;
                let from = if i == 0 {
                    g.rs
                } else {
                    self.bounds@[self.head + i - 1] + g.consumed + 1
                };
                let to = if i < n - 1 {
                    self.bounds@[self.head + i] + g.consumed
                } else {
                    j
                };
                let e = self.bounds@[self.head + n - 1] + g.consumed;
                &&& g.completes(c, j)
                &&& j <= e < g.z
                &&& run_end(k, g.x, e)
                &&& forall|t: int| j <= t <= e ==> #[trigger] stop_at(k, g.x, t)
                &&& g.rs <= from <= to <= j
                &&& g.done(c) + n == pieces(k, g.x, j + 1).len()
                &&& g.record_at(c, j).len() == n
                &&& g.record_at(c, j)[i] == g.x.subrange(from, to)
            }),
    {
        let c = self.config;
        let k = chars_of(c);
        let x = g.x;
        let n = c.field_count->0 as int;
        let done = g.done(c);
        let e = self.bounds@[self.head + n - 1] + g.consumed;
        readable_bytes(c);
        self.lemma_bounds(g, n - 1);
        self.lemma_bounds(g, i);
        run_of(c, x, e);
        rank_is_pieces(c, x, j);
        assert(pieces(k, x, j).len() == done + n - 1);
        if j < g.rs {
            pieces_grow(k, x, j + 1, g.rs);
        }
        let from = if i == 0 {
            g.rs
        } else {
            self.bounds@[self.head + i - 1] + g.consumed + 1
        };
        let to = if i < n - 1 {
            self.bounds@[self.head + i] + g.consumed
        } else {
            j
        };
        if i > 0 {
            self.lemma_bounds(g, i - 1);
            assert(cut_at(k, x, from - 1));
        }
        assert(rank(k, x, from) == done + i);
        assert(rank(k, x, to) == done + i);
        assert(from <= to) by {
            if to < from {
                // the last field starts behind the boundary before it
                same_rank(k, x, to, from - 1);
                same_rank(k, x, to, from);
            }
        }
        assert(to <= j) by {
            if i < n - 1 && j < to {
                same_rank(k, x, j, to);
            }
        }
        clear_between(k, x, from, to);
        rank_is_pieces(c, x, to);
        assert(before_edge(k, x, to));
        plain_masks(k, x, to - 1);
        never_inside(k, x, to);
        assert(!quote_at(k, x, from));
        let p = pieces(k, x, to + 1);
        assert(p == pieces(k, x, to).push((from, to)));
        pieces_grow(k, x, to + 1, j + 1);
        let all = pieces(k, x, j + 1);
        assert(all[done + i] == p[done + i]);
        keep_plain(k, x, from, to);
        assert(all.subrange(done, done + n)[i] == (from, to));
    }

    /// Where the fields of the next record lie in the buffer. The last one ends
    /// where its run of terminators starts.
    fn spans(&self, buf: &[u8], n: usize, bound: usize, Ghost(g): Ghost<Progress>) -> (r: (
        Vec<(usize, usize)>,
        usize,
    ))
        requires
            self.sound(g),
            self.listed(g),
            n == self.config.field_count->0,
            self.head + n <= self.bounds@.len(),
            self.head + n <= usize::MAX,
            bound == self.bounds@[self.head + n - 1],
            bound < usize::MAX,
            0 <= g.z <= g.x.len(),
            g.z <= g.consumed + buf@.len() + 1,
            g.consumed + buf@.len() <= g.x.len(),
            forall|i: int| self.cell_start <= i < buf@.len() ==> buf@[i] == g.x[g.consumed + i],
        ensures
            ({
                let j = run_begin(chars_of(self.config), g.x, bound + g.consumed + 1);
                &&& r.1 + g.consumed == j
                &&& spans_within(r.0@, buf@.len() as int)
                &&& in_turn(r.0@)
                &&& cut(buf@, r.0@) == g.record_at(self.config, j)
            }),
    {
        let ghost c = self.config;
        let ghost k = chars_of(c);
        let ghost x = g.x;
        let ghost e = bound + g.consumed;
        let ghost j = run_begin(k, x, e + 1);
        let ghost record = g.record_at(c, j);
        let mut spans: Vec<(usize, usize)> = Vec::new();
        let mut cs: usize = self.cell_start;
        let mut i: usize = 0;
        proof {
            self.lemma_field(g, j, n as int - 1);
        }
        while i < n - 1
            invariant
                self.sound(g),
                self.listed(g),
                c == self.config,
                n == c.field_count->0,
                1 <= n,
                0 <= g.z <= x.len(),
                x == g.x,
                self.head + n <= self.bounds@.len(),
                self.head + n <= usize::MAX,
                bound == self.bounds@[self.head + n - 1],
                e == bound + g.consumed,
                j == run_begin(chars_of(c), x, e + 1),
                j <= e <= g.consumed + buf@.len(),
                bound < usize::MAX,
                record == g.record_at(c, j),
                i <= n - 1,
                spans@.len() == i,
                in_turn(spans@),
                forall|m: int| 0 <= m < i ==> (#[trigger] spans@[m]).0 + spans@[m].1 <= cs,
                cs + g.consumed == (if i == 0 {
                    g.rs
                } else {
                    self.bounds@[self.head + i - 1] + g.consumed + 1
                }),
                forall|m: int|
                    self.cell_start <= m < buf@.len() ==> buf@[m] == x[g.consumed + m],
                forall|m: int|
                    0 <= m < i ==> (#[trigger] spans@[m]).0 + spans@[m].1 <= buf@.len()
                        && buf@.subrange(spans@[m].0 as int, spans@[m].0 + spans@[m].1)
                        == record[m],
            decreases n - i,
        {
            let b: usize = self.bounds[self.head + i];
            proof {
                self.lemma_field(g, j, i as int);
                assert(buf@.subrange(cs as int, b as int) =~= x.subrange(
                    cs + g.consumed,
                    b + g.consumed,
                ));
            }
            spans.push((cs, b - cs));
            cs = b + 1;
            i += 1;
        }
        // With runs, the boundary is a run's last terminator byte, so the
        // last field ends at its first: strip back within `[cs, bound)`.
        let mut end: usize = bound;
        proof {
            self.lemma_field(g, j, n as int - 1);
        }
        if self.has_runs {
            while end > cs && is_term(buf[end - 1], self.chars.term, self.chars.term_b)
                invariant
                        self.chars == k,
                    k.quote is None,
                    self.cell_start <= cs <= end <= bound <= buf@.len(),
                    cs + g.consumed <= j <= end + g.consumed,
                    run_start(k, x, j),
                    0 <= g.consumed,
                    g.consumed + buf@.len() <= x.len(),
                    forall|m: int|
                        self.cell_start <= m < buf@.len() ==> buf@[m] == x[g.consumed + m],
                decreases end,
            {
                proof {
                    assert(buf@[end - 1] == x[g.consumed + end - 1]);
                    assert(term_at(k, x, g.consumed + end - 1));
                    plain_masks(k, x, j - 1);
                }
                end -= 1;
            }
            proof {
                if end + g.consumed > j {
                    assert(buf@[end - 1] == x[g.consumed + end - 1]);
                    assert(stop_at(k, x, g.consumed + end - 1));
                }
            }
        } else {
            proof {
                if j < e {
                    assert(stop_at(k, x, e - 1));
                    assert(term_at(k, x, e - 1));
                    assert(term_at(k, x, e));
                }
            }
        }
        proof {
            assert(end + g.consumed == j);
            assert(buf@.subrange(cs as int, end as int) =~= x.subrange(cs + g.consumed, j));
        }
        spans.push((cs, end - cs));
        proof {
            assert(cut(buf@, spans@) =~= record);
        }
        (spans, end)
    }

    /// Emit the next record, whose terminators end at `bound`, and say whether its
    /// end crosses the chunk boundary.
    fn emit_next<S, O: Output + ?Sized, A: Accumulator<S, O>>(
        &mut self,
        buf: &[u8],
        bound: usize,
        ctx: &StepCtx,
        fold: &mut Fold<S, O, A>,
        Ghost(g): Ghost<Progress>,
    ) -> (r: Result<bool, Error>)
        requires
            old(self).sound(g),
            old(self).listed(g),
            old(self).head + old(self).config.field_count->0 <= old(self).bounds@.len(),
            old(self).head + old(self).config.field_count->0 <= usize::MAX,
            bound == old(self).bounds@[old(self).head + old(self).config.field_count->0 - 1],
            old(fold).wf(),
            buf@.len() <= old(fold).bound(),
            ({
                let p = ctx.pass@;
                let c = old(self).config;
                &&& p.wf()
                &&& old(self).caught_up(p, g, old(fold).log())
                &&& g.consumed == ctx.total_consumed - p.base
                &&& 0 <= g.z <= g.x.len()
                &&& g.z <= g.consumed + buf@.len() + 1
                &&& g.consumed + buf@.len() <= p.inp.len()
                &&& p.inp.len() <= g.x.len() <= p.inp.len() + 1
                &&& outcome(c, p.boundary, g.x) == p.meaning(c)
                &&& ctx.remaining_in_chunk == monus(p.boundary, g.consumed)
                &&& O::textual() ==> c.ascii() && exists|m: int|
                    g.z <= m <= g.x.len() && #[trigger] valid_utf8(g.x.take(m))
                &&& forall|i: int|
                    old(self).cell_start <= i < buf@.len() ==> buf@[i] == g.x[g.consumed + i]
            }),
        ensures
            *final(self) == (SimdCursorStepper {
                head: final(self).head,
                cell_start: final(self).cell_start,
                last_record_end: final(self).last_record_end,
                ..*old(self)
            }),
            old(self).cell_start <= final(self).cell_start,
            final(fold).acc() == old(fold).acc(),
            final(fold).init() == old(fold).init(),
            final(fold).bound() == old(fold).bound(),
            r is Ok ==> final(self).last_record_end is Some,
            r is Ok ==> final(self).head == old(self).head + old(self).config.field_count->0,
            ({
                let p = ctx.pass@;
                let c = old(self).config;
                let m = p.meaning(c);
                match r {
                    Ok(true) => {
                        &&& final(fold).wf()
                        &&& final(fold).log() == m.records
                        &&& final(self).last_record_end matches Some(end) && m.end == Ok::<
                            Option<int>,
                            Failure,
                        >(Some(end - p.base)) && ctx.remaining_in_chunk <= end - ctx.total_consumed
                            && end - p.base < g.z
                    },
                    Ok(false) => {
                        let g2 = final(self).at(g.x, g.consumed, g.z, final(fold).log());
                        &&& final(fold).wf()
                        &&& final(self).sound(g2)
                        &&& final(self).listed(g2)
                        &&& final(self).caught_up(p, g2, final(fold).log())
                    },
                    Err(e) => turned_down(*final(fold), m.records, e),
                }
            }),
    {
        let ghost c = self.config;
        let ghost k = chars_of(c);
        let ghost x = g.x;
        let ghost p = ctx.pass@;
        let ghost log = fold.log();
        let n: usize = self.field_counter.n();
        let ghost e = bound + g.consumed;
        let ghost j = run_begin(k, x, e + 1);
        let ghost record = g.record_at(c, j);
        proof {
            readable_bytes(c);
            self.lemma_field(g, j, n as int - 1);
            plain_masks(k, x, e + 1);
        }
        let (spans, end) = self.spans(buf, n, bound, Ghost(g));
        proof {
            let far_end = scan(c, p.boundary, x, g.rs as nat).last_end;
            next_record(c, p, g, log, far_end, j, e);
            if O::textual() {
                assert(c.controls()[1] == Some(c.terminator.pair().0));
                assert(c.controls()[2] == c.terminator.pair().1);
                let m = choose|m: int| g.z <= m <= x.len() && #[trigger] valid_utf8(x.take(m));
                let all = x.take(m);
                assert(stop_at(k, x, j));
                assert(all[j] == x[j]);
                cut_at_ascii(all, j);
                push_ascii(all.take(j), x[j]);
                assert(all.take(j).push(x[j]) =~= x.take(j + 1));
                scan_text(c, beyond(x), x, (j + 1) as nat);
                let far = scan(c, beyond(x), x, (j + 1) as nat);
                assert(far.records[g.q] == record);
            }
        }
        match fold.emit(buf, spans.as_slice()) {
            Ok(_) => {},
            Err(err) => {
                return Err(err);
            },
        }
        self.cell_start = bound + 1;
        self.head = self.head + n;
        let stop: bool = bound >= ctx.remaining_in_chunk;
        let handed: usize = handoff(end, ctx.remaining_in_chunk, stop);
        self.last_record_end = Some(ctx.total_consumed + handed);
        proof {
            let g2 = self.at(x, g.consumed, g.z, fold.log());
            let done = g.done(c);
            assert(g2.done(c) == done + n) by (nonlinear_arith)
                requires
                    done == g.q * n,
                    g2.done(c) == (g.q + 1) * n,
            ;
            dropped(
                self.bounds@,
                old(self).head as int,
                n as int,
                g.consumed,
                bound_spots(k, x, g.z),
                done,
            );
        }
        Ok(stop)
    }

    /// A stepper at the start of a chunk.
    pub fn new(config: &Config) -> (r: Self)
        requires
            readable(*config),
            config.quote is None,
        ensures
            r.dialect() == *config,
            r.last() is None,
            forall|p: Pass|
                p.wf() && starts_clean(chars_of(*config), p.inp) ==> #[trigger] r.tracks_pass(
                    p,
                    0,
                    seq![],
                    seq![],
                ),
    {
        let field_count: usize = match config.field_count {
            Some(n) => n,
            None => 1,
        };
        let r = SimdCursorStepper {
            config: *config,
            chars: scanner_config_of(config),
            field_counter: FieldCounter::new(field_count as u32),
            needs_align_prologue: true,
            pending: None,
            bounds: Vec::new(),
            head: 0,
            cell_start: 0,
            has_runs: false,
            last_record_end: None,
        };
        proof {
            assert forall|p: Pass|
                p.wf() && starts_clean(chars_of(*config), p.inp) implies #[trigger] r.tracks_pass(
                p,
                0,
                seq![],
                seq![],
            ) by {
                let g = r.at(p.inp, 0, -64, seq![]);
                let k = chars_of(*config);
                assert(g.done(*config) == 0) by (nonlinear_arith)
                    requires
                        g.done(*config) == 0 * (config.field_count->0 as int),
                ;
                assert(rank(k, p.inp, -64) == 0);
                vstd::arithmetic::div_mod::lemma_small_mod(0, config.field_count->0 as nat);
                assert(shifted(r.bounds@.skip(0), 0) =~= bound_spots(k, p.inp, -64).skip(0));
                assert(r.sound(g));
                assert(r.caught_up(p, g, seq![]));
            }
        }
        r
    }

    /// The dialect.
    pub closed spec fn dialect(&self) -> Config {
        self.config
    }

    /// The last record-end so far.
    pub closed spec fn last(&self) -> Option<usize> {
        self.last_record_end
    }

    /// The stepper has read the pass up to the end of `seen`.
    pub closed spec fn tracks_pass(
        &self,
        p: Pass,
        consumed: int,
        seen: Seq<u8>,
        log: Seq<Record>,
    ) -> bool {
        let fed = consumed + seen.len();
        let g = self.at(p.inp, consumed, fed - 64, log);
        &&& p.wf()
        &&& fed <= p.inp.len()
        &&& self.sound(g)
        &&& self.listed(g)
        &&& self.caught_up(p, g, log)
        &&& self.holds_back(p.inp, consumed, fed - 64)
        &&& self.head == 0
        &&& self.cell_start <= seen.len()
        &&& forall|i: int| self.cell_start <= i < seen.len() ==> seen[i] == p.inp[consumed + i]
    }

    /// While too few boundaries are listed for a record, one that is complete has
    /// terminators that go on.
    proof fn lemma_waits(self, g: Progress, j: int, i: int)
        requires
            self.sound(g),
            self.listed(g),
            self.bounds@.len() - self.head < self.config.field_count->0,
            g.completes(self.config, j),
            j <= i < g.z,
        ensures
            stop_at(chars_of(self.config), g.x, i),
        decreases i,
    {
        let c = self.config;
        let k = chars_of(c);
        if i > j {
            self.lemma_waits(g, j, i - 1);
            if !stop_at(k, g.x, i) {
                let live = self.bounds@.skip(self.head as int);
                spot_rank(k, g.x, g.z);
                rank_is_pieces(c, g.x, i);
                pieces_grow(k, g.x, j + 1, i);
                assert(before_edge(k, g.x, j));
                same_rank(k, g.x, i, g.z);
                assert(shifted(live, g.consumed).len() == bound_spots(k, g.x, g.z).skip(
                    g.done(c),
                ).len());
            }
        }
    }

    /// As long as no mask is known, the list is as it was at the start.
    proof fn lemma_nothing_yet(self, g: Progress, z: int)
        requires
            self.sound(g),
            self.listed(g),
            -64 <= g.z <= 0,
            -64 <= z <= 0,
        ensures
            self.sound(Progress { z, ..g }),
            self.listed(Progress { z, ..g }),
    {
        let k = chars_of(self.config);
        assert(bound_spots(k, g.x, z) =~= bound_spots(k, g.x, g.z));
    }

    /// No live boundary lies before the next record.
    proof fn lemma_live(self, g: Progress)
        requires
            self.sound(g),
            self.listed(g),
            self.head == 0,
        ensures
            forall|i: int|
                0 <= i < self.bounds@.len() ==> #[trigger] self.bounds@[i] >= self.cell_start,
    {
        let c = self.config;
        let k = chars_of(c);
        let s = bound_spots(k, g.x, g.z);
        let done = g.done(c);
        spot_rank(k, g.x, g.z);
        rank_is_pieces(c, g.x, g.rs);
        assert(self.bounds@.skip(0) =~= self.bounds@);
        assert(shifted(self.bounds@, g.consumed).len() == s.skip(done).len());
        assert forall|i: int| 0 <= i < self.bounds@.len() implies #[trigger] self.bounds@[i]
            >= self.cell_start by {
            assert(shifted(self.bounds@, g.consumed)[i] == s.skip(done)[i]);
            let b = s[done + i];
            assert(b == self.bounds@[i] + g.consumed);
            assert(behind_edge(k, g.x, b));
            assert(rank(k, g.x, b + 1) == rank(k, g.x, b) + 1);
            if b < g.rs {
                same_rank(k, g.x, b + 1, g.rs);
            }
        }
    }

    /// Scan one 64-byte vector → `(delim_mask, raw term_mask)`. The
    /// run-end collapse is the caller's job; it holds the lookahead.
    fn scan_vector(&self, v: &[u8; 64]) -> (r: (u64, u64))
        ensures
            forall|j: int| 0 <= j < 64 ==> #[trigger] bit(r.0, j) == (v@[j] == self.chars.delim),
            forall|j: int|
                0 <= j < 64 ==> #[trigger] bit(r.1, j) == (v@[j] == self.chars.term
                    || self.chars.term_b == Some(v@[j])),
    {
        let s = match_structural(v, self.chars.delim, self.chars.term, self.chars.term_b, None);
        (s.delim, s.term)
    }

    /// Drop the emitted boundaries.
    fn drop_emitted_prefix(&mut self)
        requires
            old(self).head <= old(self).bounds@.len(),
        ensures
            *final(self) == (SimdCursorStepper {
                bounds: final(self).bounds,
                head: 0,
                ..*old(self)
            }),
            forall|g: Progress| #[trigger] old(self).listed(g) ==> final(self).listed(g),
    {
        let b = self.bounds.split_off(self.head);
        self.bounds = b;
        self.head = 0;
        assert(self.bounds@.skip(0) =~= old(self).bounds@.skip(old(self).head as int));
    }

    /// Emit the records pending, stopping after the
    /// first whose terminator crosses the chunk boundary — a record's
    /// terminator is its `n`-th bound. `Some(end)` once it is crossed.
    fn flush<S, O: Output + ?Sized, A: Accumulator<S, O>>(
        &mut self,
        buf: &[u8],
        ctx: &StepCtx,
        fold: &mut Fold<S, O, A>,
        Ghost(x): Ghost<Seq<u8>>,
        Ghost(z): Ghost<int>,
    ) -> (r: Result<Option<usize>, Error>)
        requires
            old(fold).wf(),
            buf@.len() <= old(fold).bound(),
            ({
                let p = ctx.pass@;
                let c = old(self).config;
                let consumed = ctx.total_consumed - p.base;
                let g = old(self).at(x, consumed, z, old(fold).log());
                &&& p.wf()
                &&& old(self).sound(g)
                &&& old(self).listed(g)
                &&& old(self).caught_up(p, g, old(fold).log())
                &&& 0 <= z <= x.len()
                &&& z <= consumed + buf@.len() + 1
                &&& consumed + buf@.len() <= p.inp.len()
                &&& p.inp.len() <= x.len() <= p.inp.len() + 1
                &&& outcome(c, p.boundary, x) == p.meaning(c)
                &&& ctx.remaining_in_chunk == monus(p.boundary, consumed)
                &&& O::textual() ==> c.ascii() && exists|m: int|
                    z <= m <= x.len() && #[trigger] valid_utf8(x.take(m))
                &&& forall|i: int|
                    old(self).cell_start <= i < buf@.len() ==> buf@[i] == x[consumed + i]
            }),
        ensures
            *final(self) == (SimdCursorStepper {
                head: final(self).head,
                cell_start: final(self).cell_start,
                last_record_end: final(self).last_record_end,
                ..*old(self)
            }),
            old(self).cell_start <= final(self).cell_start,
            final(fold).acc() == old(fold).acc(),
            final(fold).init() == old(fold).init(),
            final(fold).bound() == old(fold).bound(),
            r is Ok ==> final(self).last_record_end == old(self).last_record_end
                || final(self).last_record_end is Some,
            ({
                let p = ctx.pass@;
                let c = old(self).config;
                let consumed = ctx.total_consumed - p.base;
                let m = p.meaning(c);
                match r {
                    Ok(None) => {
                        let g = final(self).at(x, consumed, z, final(fold).log());
                        &&& final(fold).wf()
                        &&& final(self).sound(g)
                        &&& final(self).listed(g)
                        &&& final(self).caught_up(p, g, final(fold).log())
                        &&& final(self).bounds@.len() - final(self).head < c.field_count->0
                    },
                    Ok(Some(end)) => {
                        &&& final(fold).wf()
                        &&& final(fold).log() == m.records
                        &&& m.end == Ok::<Option<int>, Failure>(Some(end - p.base))
                        &&& ctx.remaining_in_chunk <= end - ctx.total_consumed
                        &&& end - p.base < z
                    },
                    Err(e) => turned_down(*final(fold), m.records, e),
                }
            }),
    {
        let ghost p = ctx.pass@;
        let ghost c = self.config;
        let ghost consumed = ctx.total_consumed - p.base;
        let n: usize = self.field_counter.n();
        while self.bounds.len() - self.head >= n
            invariant
                *self == (SimdCursorStepper {
                    head: self.head,
                    cell_start: self.cell_start,
                    last_record_end: self.last_record_end,
                    ..*old(self)
                }),
                old(self).cell_start <= self.cell_start,
                c == old(self).config,
                n == c.field_count->0,
                p == ctx.pass@,
                consumed == ctx.total_consumed - p.base,
                p.wf(),
                0 <= z <= x.len(),
                z <= consumed + buf@.len() + 1,
                consumed + buf@.len() <= p.inp.len(),
                p.inp.len() <= x.len() <= p.inp.len() + 1,
                outcome(c, p.boundary, x) == p.meaning(c),
                ctx.remaining_in_chunk == monus(p.boundary, consumed),
                O::textual() ==> c.ascii() && exists|m: int|
                    z <= m <= x.len() && #[trigger] valid_utf8(x.take(m)),
                forall|i: int| old(self).cell_start <= i < buf@.len() ==> buf@[i] == x[consumed + i],
                fold.wf(),
                fold.acc() == old(fold).acc(),
                fold.init() == old(fold).init(),
                fold.bound() == old(fold).bound(),
                buf@.len() <= fold.bound(),
                self.last_record_end == old(self).last_record_end || self.last_record_end is Some,
                ({
                    let g = self.at(x, consumed, z, fold.log());
                    &&& self.sound(g)
                    &&& self.listed(g)
                    &&& self.caught_up(p, g, fold.log())
                }),
            decreases self.bounds@.len() - self.head,
        {
            let ghost g = self.at(x, consumed, z, fold.log());
            let bound: usize = self.bounds[self.head + (n - 1)];
            match self.emit_next(buf, bound, ctx, fold, Ghost(g)) {
                Ok(stop) => {
                    if stop {
                        return Ok(self.last_record_end);
                    }
                },
                Err(e) => {
                    return Err(e);
                },
            }
        }
        Ok(None)
    }

    /// What the list says of an input, it says of the same input
    /// with a terminator behind it.
    proof fn lemma_closed(self, p: Pass, consumed: int, z: int, log: Seq<Record>)
        requires
            p.wf(),
            z + 64 <= p.inp.len(),
            p.inp.len() > 0,
            ({
                let g = self.at(p.inp, consumed, z, log);
                self.sound(g) && self.listed(g) && self.caught_up(p, g, log)
            }),
        ensures
            ({
                let g = self.at(
                    closed_input(chars_of(self.config), p.inp),
                    consumed,
                    z,
                    log,
                );
                self.sound(g) && self.listed(g) && self.caught_up(p, g, log)
            }),
    {
        let c = self.config;
        let k = chars_of(c);
        let x = p.inp;
        let y = closed_input(k, x);
        let g = self.at(x, consumed, z, log);
        closed_progress(c, p, g, log, scan(c, p.boundary, x, g.rs as nat).last_end);
        let one = |i: int| behind_edge(k, x, i);
        let other = |i: int| behind_edge(k, y, i);
        assert forall|i: int| 0 <= i < z implies #[trigger] one(i) == other(i) by {
            mask_at_start(k, x, y, i);
        }
        spots_same(one, other, 0, z);
        assert forall|i: int| 0 <= i < z && #[trigger] term_at(k, y, i) implies term_at(k, x, i)
            && term_at(k, y, i + 1) == term_at(k, x, i + 1) by {}
    }

    /// Masks known past the end of the input say nothing of it.
    proof fn lemma_to_end(self, g: Progress)
        requires
            self.sound(g),
            self.listed(g),
            g.z >= g.x.len(),
        ensures
            self.sound(Progress { z: g.x.len() as int, ..g }),
            self.listed(Progress { z: g.x.len() as int, ..g }),
    {
        let k = chars_of(self.config);
        nothing_behind(|i: int| behind_edge(k, g.x, i), 0, g.x.len() as int, g.z);
        rank_to_end(k, g.x, g.z);
    }
}

impl<O: Output + ?Sized> ChunkStepper<O> for SimdCursorStepper {
    open spec fn config(&self) -> Config {
        self.dialect()
    }

    open spec fn tracks(&self, p: Pass, consumed: int, seen: Seq<u8>, log: Seq<Record>) -> bool {
        self.tracks_pass(p, consumed, seen, log)
    }

    closed spec fn spare(&self, pos: int) -> int {
        self.cell_start as int
    }

    open spec fn last_end(&self) -> Option<usize> {
        self.last()
    }

    open spec fn lag() -> nat {
        63
    }

    open spec fn exact() -> bool {
        false
    }

    #[verifier::rlimit(60)]
    fn step<S, A: Accumulator<S, O>>(
        &mut self,
        buf: &mut [u8],
        ctx: StepCtx,
        fold: &mut Fold<S, O, A>,
    ) -> (r: StepResult) {
        let ghost p = ctx.pass@;
        let ghost consumed = ctx.total_consumed - p.base;
        let ghost c = self.config;
        let ghost k = chars_of(c);
        let ghost x = p.inp;
        let scan_end: usize = ctx.scan_end;
        let mut cursor: usize = ctx.scan_start;
        let ghost shown = buf@;
        proof {
            assert(shown.take(cursor as int).len() == cursor);
            assert(consumed + cursor == 0 || cursor > 0);
            assert forall|i: int| self.cell_start <= i < shown.len() implies shown[i]
                == x[consumed + i] by {
                if i >= cursor {
                    assert(shown.skip(cursor as int)[i - cursor] == x.subrange(
                        consumed + cursor,
                        consumed + shown.len(),
                    )[i - cursor]);
                } else {
                    assert(shown.take(cursor as int)[i] == shown[i]);
                }
            }
        }
        // Put the scan on a 64-byte boundary before the first real vector;
        // the stride fixes every later load.
        if self.needs_align_prologue && cursor == 0 && self.pending.is_none() {
            let cfg = self.chars;
            let pad: u8 = neutral_pad(cfg.delim, cfg.term, cfg.term_b, None);
            match head_padded_prologue(buf, scan_end, pad) {
                Prologue::Vector(v, misalign) => {
                    let (delim, term) = self.scan_vector(&v);
                    proof {
                        assert(consumed == 0);
                        assert forall|j: int| 0 <= j < 64 implies #[trigger] bit(delim, j)
                            == delim_at(k, x, j - misalign) by {
                            if j >= misalign {
                                assert(v@[j] == x[j - misalign]);
                            }
                        }
                        assert forall|j: int| 0 <= j < 64 implies #[trigger] bit(term, j)
                            == term_at(k, x, j - misalign) by {
                            if j >= misalign {
                                assert(v@[j] == x[j - misalign]);
                            }
                        }
                        self.lemma_nothing_yet(self.at(x, 0, -64, fold.log()), -misalign);
                    }
                    // Wrapped-negative base: bit `i` is offset `i - misalign`.
                    // The first loop iteration is guaranteed to run, so this
                    // never survives to a suspension.
                    let base: usize = 0usize.wrapping_sub(misalign);
                    self.pending = Some((delim, term, base));
                    cursor = VECTOR_BYTES - misalign;
                    self.needs_align_prologue = false;
                },
                Prologue::Aligned => {
                    self.needs_align_prologue = false;
                },
                // Retrying is only possible while the loop below scans
                // nothing: one vector from 0 and `cursor` never returns.
                Prologue::TooShort => {
                    self.needs_align_prologue = scan_end < VECTOR_BYTES;
                },
            }
        }
        let n: usize = self.field_counter.n();
        while scan_end - cursor >= VECTOR_BYTES
            invariant
                p == ctx.pass@,
                consumed == ctx.total_consumed - p.base,
                x == p.inp,
                c == old(self).config,
                self.config == c,
                n == c.field_count->0,
                k == chars_of(c),
                shown == old(buf)@,
                buf@ == shown,
                scan_end == ctx.scan_end,
                ctx.fits(p, shown, c, O::textual()),
                ctx.scan_start <= cursor <= scan_end <= shown.len(),
                fold.wf(),
                fold.acc() == old(fold).acc(),
                fold.init() == old(fold).init(),
                fold.bound() == old(fold).bound(),
                buf@.len() <= fold.bound(),
                ({
                    let g = self.at(x, consumed, consumed + cursor - 64, fold.log());
                    &&& self.sound(g)
                    &&& self.listed(g)
                    &&& self.caught_up(p, g, fold.log())
                }),
                self.holds_back(x, consumed, consumed + cursor - 64),
                forall|i: int|
                    self.cell_start <= i < shown.len() ==> shown[i] == x[consumed + i],
            decreases scan_end - cursor,
        {
            let ghost z = consumed + cursor - 64;
            let ghost g = self.at(x, consumed, z, fold.log());
            let part: &[u8] = vstd::slice::slice_subrange(buf, cursor, cursor + VECTOR_BYTES);
            let v: [u8; 64] = padded_vector(part, VECTOR_BYTES, 0);
            let (delim_mask, term_mask) = self.scan_vector(&v);
            let base: usize = cursor;
            cursor = cursor + VECTOR_BYTES;
            proof {
                assert forall|j: int| 0 <= j < 64 implies #[trigger] bit(delim_mask, j) == delim_at(
                    k,
                    x,
                    z + 64 + j,
                ) by {
                    assert(v@[j] == shown[base + j]);
                    assert(shown[base + j] == x[consumed + (base + j)]);
                }
                assert forall|j: int| 0 <= j < 64 implies #[trigger] bit(term_mask, j) == term_at(
                    k,
                    x,
                    z + 64 + j,
                ) by {
                    assert(v@[j] == shown[base + j]);
                    assert(shown[base + j] == x[consumed + (base + j)]);
                }
            }
            // The current vector's terminator LSB resolves the held one:
            // collapse its runs, verify, publish, then hold this one.
            match self.pending {
                Some((p_delim, p_term, pbase)) => {
                    if !self.publish(p_delim, p_term, pbase, test_bit(term_mask, 0), Ghost(g)) {
                        proof {
                            irregular_is_faulty(c, x, x, g.rs, z, z + 64, consumed + scan_end);
                        }
                        let seen: &[u8] = vstd::slice::slice_subrange(buf, 0, scan_end);
                        return StepResult::Error(
                            arity_error(
                                seen,
                                self.cell_start,
                                n,
                                self.chars,
                                ctx.total_consumed,
                                Ghost(c),
                                Ghost(p),
                                Ghost(g),
                            ),
                        );
                    }
                },
                None => {
                    proof {
                        self.lemma_nothing_yet(g, 0);
                    }
                },
            }
            self.pending = Some((delim_mask, term_mask, base));
            if self.bounds.len() - self.head >= EMIT_BATCH_FIELDS {
                match self.flush(buf, &ctx, fold, Ghost(x), Ghost(z + 64)) {
                    Ok(None) => {},
                    Ok(Some(end)) => {
                        return StepResult::Done(end);
                    },
                    Err(e) => {
                        return StepResult::Error(e);
                    },
                }
                if self.head >= COMPACT_THRESHOLD {
                    self.drop_emitted_prefix();
                }
            }
        }
        // Flush records completed by the boundaries published this step.
        if cursor >= VECTOR_BYTES {
            match self.flush(buf, &ctx, fold, Ghost(x), Ghost(consumed + cursor - 64)) {
                Ok(None) => {},
                Ok(Some(end)) => {
                    return StepResult::Done(end);
                },
                Err(e) => {
                    return StepResult::Error(e);
                },
            }
        }
        proof {
            let g = self.at(x, consumed, consumed + cursor - 64, fold.log());
            assert forall|j: int, i: int|
                #![trigger g.completes(c, j), stop_at(chars_of(c), x, i)]
                g.completes(c, j) && j <= i < g.z implies stop_at(chars_of(c), x, i) by {
                self.lemma_waits(g, j, i);
            }
            held_back(c, p, g, fold.log(), scan(c, p.boundary, x, g.rs as nat).last_end);
        }
        if self.head != 0 {
            self.drop_emitted_prefix();
        }
        StepResult::Suspended {
            resume_at: cursor,
            consumable: self.cell_start,
            last_record_end: self.last_record_end,
        }
    }

    fn consume(
        &mut self,
        n: usize,
        Ghost(p): Ghost<Pass>,
        Ghost(consumed): Ghost<int>,
        Ghost(seen): Ghost<Seq<u8>>,
        Ghost(log): Ghost<Seq<Record>>,
    ) {
        let ghost z = consumed + seen.len() - 64;
        let ghost g = self.at(p.inp, consumed, z, log);
        proof {
            self.lemma_live(g);
        }
        self.cell_start = self.cell_start - n;
        match self.pending {
            Some((delim, term, base)) => {
                self.pending = Some((delim, term, base.saturating_sub(n)));
            },
            None => {},
        }
        shift_down(&mut self.bounds, n);
        proof {
            assert(self.bounds@.skip(0) =~= self.bounds@);
            assert(old(self).bounds@.skip(0) =~= old(self).bounds@);
            assert(shifted(self.bounds@, consumed + n) =~= shifted(old(self).bounds@, consumed));
        }
    }

    #[verifier::rlimit(60)]
    fn finalize<S, A: Accumulator<S, O>>(
        &mut self,
        buf: &mut [u8],
        ctx: StepCtx,
        fold: &mut Fold<S, O, A>,
    ) -> (r: Result<Option<usize>, Error>) {
        let ghost p = ctx.pass@;
        let ghost consumed = ctx.total_consumed - p.base;
        let ghost c = self.config;
        let ghost k = chars_of(c);
        let ghost inp = p.inp;
        let ghost x = closed_input(k, inp);
        let ghost len = x.len() as int;
        let ghost shown = buf@;
        let ghost log = fold.log();
        let cursor: usize = ctx.scan_start;
        let ghost fed = consumed + cursor;
        let ghost mut z = fed - 64;
        let scan_end: usize = ctx.scan_end;
        proof {
            assert(shown.take(cursor as int).len() == cursor);
        }
        if scan_end == 0 {
            assert(self.cell_start == 0);
            return Ok(self.last_record_end);
        }
        let (term, term_b) = (self.chars.term, self.chars.term_b);
        // Build the tail vector's raw masks (< 64 B), splicing a
        // synthetic terminator in when the last real byte isn't one.
        let real_tail_len: usize = scan_end - cursor;
        let needs_virtual_term: bool = !is_term(buf[scan_end - 1], term, term_b);
        proof {
            assert forall|i: int| self.cell_start <= i < shown.len() implies shown[i]
                == inp[consumed + i] by {
                if i >= cursor {
                    assert(shown.skip(cursor as int)[i - cursor] == inp.subrange(
                        consumed + cursor,
                        consumed + shown.len(),
                    )[i - cursor]);
                } else {
                    assert(shown.take(cursor as int)[i] == shown[i]);
                }
            }
            readable_bytes(c);
            assert(shown[scan_end - 1] == inp[inp.len() - 1]);
            assert(needs_virtual_term == (len > inp.len()));
            if needs_virtual_term {
                closing_terminator(c, p.boundary, inp);
                assert(x[inp.len() as int] == k.term);
            }
            assert(term_at(k, x, len - 1));
            if O::textual() {
                assert(c.controls()[1] == Some(c.terminator.pair().0));
                assert(inp.take(consumed + scan_end) =~= inp);
                if needs_virtual_term {
                    push_ascii(inp, k.term);
                }
                assert(x.take(len) =~= x);
            }
            self.lemma_closed(p, consumed, z, log);
        }
        let ghost start = self.at(inp, consumed, z, log);
        let has_tail: bool = real_tail_len > 0 || needs_virtual_term;
        let pad: u8 = neutral_pad(self.chars.delim, term, term_b, None);
        let part: &[u8] = vstd::slice::slice_subrange(buf, cursor, scan_end);
        let mut v: [u8; 64] = padded_vector(part, real_tail_len, pad);
        if needs_virtual_term {
            v[real_tail_len] = term;
        }
        let (t_delim, t_term) = self.scan_vector(&v);
        proof {
            assert forall|j: int| 0 <= j < 64 implies v@[j] == (if fed + j < len {
                x[fed + j]
            } else {
                pad
            }) by {
                if j < real_tail_len {
                    assert(v@[j] == shown[cursor + j]);
                    assert(shown[cursor + j] == inp[consumed + (cursor + j)]);
                }
            }
            assert forall|j: int| 0 <= j < 64 implies #[trigger] bit(t_delim, j) == delim_at(
                k,
                x,
                fed + j,
            ) by {
                assert(v@[j] == v@[j]);
            }
            assert forall|j: int| 0 <= j < 64 implies #[trigger] bit(t_term, j) == term_at(
                k,
                x,
                fed + j,
            ) by {
                assert(v@[j] == v@[j]);
            }
        }
        // Resolve the held vector against the tail's first-terminator
        // bit, and publish it first to keep `bounds` sorted.
        let ghost g = self.at(x, consumed, z, log);
        match self.pending {
            Some((p_delim, p_term, pbase)) => {
                proof {
                    assert forall|j: int| 0 <= j < 64 implies #[trigger] bit(p_delim, j)
                        == delim_at(k, x, z + j) by {
                        assert(bit(p_delim, j) == delim_at(k, inp, z + j));
                    }
                    assert forall|j: int| 0 <= j < 64 implies #[trigger] bit(p_term, j) == term_at(
                        k,
                        x,
                        z + j,
                    ) by {
                        assert(bit(p_term, j) == term_at(k, inp, z + j));
                    }
                }
                if !self.publish(p_delim, p_term, pbase, test_bit(t_term, 0), Ghost(g)) {
                    proof {
                        irregular_is_faulty(c, inp, x, g.rs, z, z + 64, inp.len() as int);
                    }
                    return Err(
                        arity_error(
                            buf,
                            self.cell_start,
                            self.field_counter.n(),
                            self.chars,
                            ctx.total_consumed,
                            Ghost(c),
                            Ghost(p),
                            Ghost(start),
                        ),
                    );
                }
            },
            None => {
                proof {
                    self.lemma_nothing_yet(g, 0);
                }
            },
        }
        proof {
            z = fed;
        }
        // Publish the tail's boundaries (no continuation past it).
        if has_tail {
            let ghost g = self.at(x, consumed, z, log);
            if !self.publish(t_delim, t_term, cursor, false, Ghost(g)) {
                proof {
                    irregular_is_faulty(c, inp, x, g.rs, z, z + 64, inp.len() as int);
                }
                return Err(
                    arity_error(
                        buf,
                        self.cell_start,
                        self.field_counter.n(),
                        self.chars,
                        ctx.total_consumed,
                        Ghost(c),
                        Ghost(p),
                        Ghost(start),
                    ),
                );
            }
            proof {
                self.lemma_to_end(Progress { z: z + 64, ..g });
            }
        }
        match self.flush(buf, &ctx, fold, Ghost(x), Ghost(len)) {
            Ok(None) => {},
            Ok(Some(end)) => {
                return Ok(Some(end));
            },
            Err(e) => {
                return Err(e);
            },
        }
        proof {
            let g = self.at(x, consumed, len, fold.log());
            let live = self.bounds@.skip(self.head as int);
            spot_rank(k, x, len);
            rank_is_pieces(c, x, len);
            never_inside(k, x, len);
            assert(shifted(live, consumed).len() == bound_spots(k, x, len).skip(g.done(c)).len());
            all_out(c, p, g, fold.log(), scan(c, p.boundary, x, g.rs as nat).last_end);
        }
        Ok(self.last_record_end)
    }
}

} // verus!
