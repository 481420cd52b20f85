//! The bitmask side of `parse_from` for the quoted path: drives [`Scanner`] in
//! 64-byte vectors, extracts B/E/R offsets, and emits records by striding
//! them in groups of `N` via [`assemble_records_fixed`].

use vstd::prelude::*;
use vstd::utf8::valid_utf8;

use super::bitmask::{
    below, both, head_padded_prologue, is_quote, neutral_pad, padded_vector, Prologue,
    VECTOR_BYTES,
};
use super::chars_of;
use super::faults::{closing_terminator, last_line_ends};
use super::fieldcount::FieldCounter;
use super::fields::{
    bad_line, begin_of, begin_spots, begins_are_pieces, begun, edge_is, edge_of, end_of, end_spots,
    ends_are_pieces, field_start, keep, line_start, not_inside_at_start, pieces, pieces_grow,
    pieces_ordered, rank, record_ends_run, regular, regular_lines, spots, spots_are, spots_join,
    spots_same, starts_before, starts_clean, starts_follow, starts_grow,
};
use super::findstart::{readable, readable_bytes};
use super::handoff;
use super::index::{
    ascending, assemble_records_fixed, assembled, extend_offsets, in_order, kept, shift_down,
};
use super::masks::{
    begins, ends, gone, inside, inside_padded, inside_same, neutral, padded, quote_at, shuts,
    stop_at, term_at,
};
use super::progress::{
    all_out, arity_error, closed_input, closed_progress, held_back, irregular_is_faulty,
    next_record, Progress,
};
use super::scan::{describes, Scanner, ScannerConfig, VectorOutput};
use super::stream::{
    clipped_masks, dropped, extended, from_negative, in_step_is_regular, lines_of_start,
    mask_at_start, masks_of_start, nothing_behind, rank_to_end, shifted, unpadded_masks,
};
use crate::config::{is_term, Config};
use crate::error::{Error, Position};
use crate::io::monus;
use crate::parser::driver::{
    eager_report, turned_down, ChunkStepper, Pass, StepCtx, StepResult,
};
use crate::parser::fold::{presentable, refuses, Accumulator, Fold};
use crate::parser::grammar::{beyond, outcome, placed, scan, Failure, Record};
use crate::parser::output::Output;
use crate::parser::text::{cut_at_ascii, push_ascii, scan_text};

verus! {

/// Chunk stepper for the general / quoted path: drives the full
/// cross-vector [`Scanner`] and assembles records from begin/end indices.
/// [`super::cursor_stepper::SimdCursorStepper`] is the quote-free one.
pub struct SimdIndexStepper {
    /// The dialect.
    config: Config,
    /// Dialect bytes handed to the scanner and the error paths.
    scanner_config: ScannerConfig,
    /// The cross-vector bitmask pipeline, with its own lag and carries.
    scanner: Scanner,
    /// Per-vector field-count verifier.
    field_counter: FieldCounter,
    /// True until [`head_padded_prologue`] has run, or been given up on.
    needs_align_prologue: bool,
    /// True until the stepper has pushed the `B[0]` the scanner omits.
    needs_chunk_start_b: bool,
    /// Field begins; records stride this and `e_offs` by `N`.
    b_offs: Vec<usize>,
    /// Field ends.
    e_offs: Vec<usize>,
    /// Chars to remove, applied during assembly.
    r_offs: Vec<usize>,
    /// How many begins and ends have been emitted.
    head: usize,
    /// How many removals have been applied.
    r_head: usize,
    /// Buffer offset where the next record begins; the consume limit.
    record_buf_start: usize,
    /// Offset in the chunk of the last completed record's end.
    last_record_end: Option<usize>,
    /// How many bytes of padding the scan started with, and which.
    lead: Ghost<nat>,
    pad: Ghost<u8>,
}

/// The bytes of a dialect that the bitmask parser cares about.
pub fn scanner_config_of(config: &Config) -> (r: ScannerConfig)
    ensures
        r == chars_of(*config),
{
    // A run over `{term, term_b}` collapses to one record boundary.
    let (term, term_b) = config.terminator.bytes();
    let doubled_quotes = match (config.quote, config.escape) {
        (Some(q), Some(e)) => q == e,
        _ => false,
    };
    ScannerConfig { delim: config.delimiter, term, term_b, quote: config.quote, doubled_quotes }
}

/// How many emitted entries a list may hold before they are dropped.
pub const COMPACT_THRESHOLD: usize = 2048;

/// In-loop flush threshold, in pending fields. Must be >= the max
/// arity (63) so a full record is always pending when it fires.
pub const EMIT_BATCH_FIELDS: usize = 128;

impl SimdIndexStepper {
    /// How many fields are out.
    spec fn done(self, g: Progress) -> int {
        g.done(self.config)
    }

    /// The lists hold what the masks say, from the next record on.
    spec fn listed(self, g: Progress) -> bool {
        let k = chars_of(self.config);
        let done = self.done(g);
        &&& self.head <= self.b_offs@.len()
        &&& self.head <= self.e_offs@.len()
        &&& self.r_head <= self.r_offs@.len()
        &&& 0 <= done <= end_spots(k, g.x, g.z).len()
        &&& !self.needs_chunk_start_b ==> {
            &&& done <= begin_spots(k, g.x, g.z).len()
            &&& shifted(self.b_offs@.skip(self.head as int), g.consumed) == begin_spots(
                k,
                g.x,
                g.z,
            ).skip(done)
        }
        &&& shifted(self.e_offs@.skip(self.head as int), g.consumed) == end_spots(
            k,
            g.x,
            g.z,
        ).skip(done)
        &&& shifted(self.r_offs@.skip(self.r_head as int), g.consumed) == spots(
            |i: int| gone(k, g.x, i),
            g.rs,
            g.z,
        )
    }

    /// The boundaries seen so far are in order, and counted.
    spec fn counted(self, g: Progress) -> bool {
        let k = chars_of(self.config);
        let n = self.config.field_count->0 as int;
        &&& self.field_counter.wf()
        &&& self.field_counter.fields() == n
        &&& regular(k, g.x, n, g.z)
        &&& self.field_counter.seen() == rank(k, g.x, g.z) as int % n
    }

    /// The parts that do not change, and the bounds of those that do.
    spec fn sound(self, g: Progress) -> bool {
        &&& g.sound(self.config)
        &&& self.scanner_config == chars_of(self.config)
        &&& self.field_counter.fields() == self.config.field_count->0
        &&& g.rs == g.consumed + self.record_buf_start
    }

    /// Record the vector output `out`, for the vector that starts at buffer
    /// offset `base`. `false` if it shows a record with another number of fields.
    fn absorb(&mut self, out: &VectorOutput, base: usize, Ghost(g): Ghost<Progress>) -> (r: bool)
        requires
            old(self).sound(g),
            old(self).listed(g),
            old(self).counted(g),
            !old(self).needs_chunk_start_b,
            describes(*out, chars_of(old(self).config), g.x, g.z),
            g.x.len() - g.consumed <= usize::MAX,
            g.z <= g.x.len(),
            base == (if g.z >= g.consumed {
                g.z - g.consumed
            } else {
                g.z - g.consumed + usize::MAX + 1
            }),
        ensures
            *final(self) == (SimdIndexStepper {
                field_counter: final(self).field_counter,
                b_offs: final(self).b_offs,
                e_offs: final(self).e_offs,
                r_offs: final(self).r_offs,
                ..*old(self)
            }),
            final(self).sound(g),
            r == regular(
                chars_of(old(self).config),
                g.x,
                old(self).config.field_count->0 as int,
                g.z + 64,
            ),
            r ==> {
                let g2 = Progress { z: g.z + 64, ..g };
                final(self).sound(g2) && final(self).listed(g2) && final(self).counted(g2)
            },
    {
        let ghost k = chars_of(self.config);
        let ghost g2 = Progress { z: g.z + 64, ..g };
        proof {
            in_step_is_regular(self.config, g.x, g.z, out.d_struct, out.term);
        }
        // The verifier counts separators and threads its own
        // phase: the emit's E-count diverges for a quoted last
        // field, so it must not feed back in here.
        if !self.field_counter.verify(out.d_struct, out.term) {
            return false;
        }
        let ghost b0 = self.b_offs@;
        let ghost e0 = self.e_offs@;
        let ghost r0 = self.r_offs@;
        extend_offsets(&mut self.b_offs, out.b, base);
        extend_offsets(&mut self.e_offs, out.e, base);
        extend_offsets(&mut self.r_offs, out.r, base);
        proof {
            let tb = |i: int| begins(k, g.x, i);
            let te = |i: int| ends(k, g.x, i);
            let tr = |i: int| gone(k, g.x, i);
            let done = self.done(g);
            let h = self.head as int;
            extended(b0, h, out.b, base, tb, g.z, g.consumed);
            extended(e0, h, out.e, base, te, g.z, g.consumed);
            extended(r0, self.r_head as int, out.r, base, tr, g.z, g.consumed);
            from_negative(tb, g.z, g.z + 64);
            from_negative(te, g.z, g.z + 64);
            let b_old = begin_spots(k, g.x, g.z);
            let e_old = end_spots(k, g.x, g.z);
            assert(begin_spots(k, g.x, g2.z) =~= b_old + spots(tb, g.z, g.z + 64));
            assert(end_spots(k, g.x, g2.z) =~= e_old + spots(te, g.z, g.z + 64));
            assert((b_old + spots(tb, g.z, g.z + 64)).skip(done) =~= b_old.skip(done) + spots(
                tb,
                g.z,
                g.z + 64,
            ));
            assert((e_old + spots(te, g.z, g.z + 64)).skip(done) =~= e_old.skip(done) + spots(
                te,
                g.z,
                g.z + 64,
            ));
            if g.rs <= g.z {
                spots_join(tr, g.rs, g.z, g.z + 64);
            } else {
                from_negative(tr, g.z, g.z + 64);
                assert(spots(tr, 0, g.z) =~= seq![]);
            }
            assert(spots(tr, g.rs, g2.z) =~= spots(tr, g.rs, g.z) + spots(tr, g.z, g.z + 64));
        }
        true
    }

    /// The fields of the next record, as the lists have them.
    proof fn lemma_fields(self, g: Progress, j: int, i: int)
        requires
            self.sound(g),
            self.listed(g),
            !self.needs_chunk_start_b,
            g.completes(self.config, j),
            0 <= i < self.config.field_count->0,
        ensures
            ({
                let k = chars_of(self.config);
                let n = self.config.field_count->0 as int;
                let p = pieces(k, g.x, j + 1);
                let at = self.done(g) + i;
                &&& self.head + n <= self.b_offs@.len()
                &&& self.head + n <= self.e_offs@.len()
                &&& at < p.len()
                &&& p.len() == self.done(g) + n
                &&& self.b_offs@[self.head + i] + g.consumed == p[at].0
                &&& self.e_offs@[self.head + i] + g.consumed == p[at].1
                &&& g.rs <= p[at].0 <= p[at].1 <= j
                &&& i == n - 1 ==> p[at].1 == end_of(k, g.x, j)
            }),
    {
        let c = self.config;
        let k = chars_of(c);
        let n = c.field_count->0 as int;
        let done = self.done(g);
        let at = done + i;
        let p = pieces(k, g.x, j + 1);
        let all = pieces(k, g.x, g.z);
        pieces_grow(k, g.x, j + 1, g.z);
        ends_are_pieces(c, g.x, g.z);
        begins_are_pieces(c, g.x, g.z);
        assert(all[at] == p[at]);
        let b = self.b_offs@.skip(self.head as int);
        let e = self.e_offs@.skip(self.head as int);
        assert(shifted(b, g.consumed).len() >= n);
        assert(shifted(e, g.consumed).len() >= n);
        assert(shifted(b, g.consumed)[i] == begin_spots(k, g.x, g.z)[at]);
        assert(shifted(e, g.consumed)[i] == end_spots(k, g.x, g.z)[at]);
        assert(b[i] == self.b_offs@[self.head + i]);
        assert(e[i] == self.e_offs@[self.head + i]);
        edge_is(k, g.x, j + 1, at);
        let t = edge_of(k, g.x, j + 1, at);
        assert(g.rs <= t) by {
            if t < g.rs {
                pieces_grow(k, g.x, t + 1, g.rs);
            }
        }
        starts_grow(k, g.x, g.rs, t);
        pieces_ordered(c, g.x, j + 1);
        assert(p[at].0 <= p[at].1);
        assert(p[done + n - 1] == (
            begin_of(k, g.x, field_start(k, g.x, j)),
            end_of(k, g.x, j),
        ));
    }

    /// The fields of the next record do not overlap.
    proof fn lemma_in_order(self, len: int, g: Progress, j: int)
        requires
            self.sound(g),
            self.listed(g),
            !self.needs_chunk_start_b,
            g.completes(self.config, j),
            j - g.consumed <= len,
        ensures
            in_order(
                self.b_offs@.skip(self.head as int),
                self.e_offs@.skip(self.head as int),
                self.config.field_count->0 as int,
                len,
            ),
    {
        let c = self.config;
        let n = c.field_count->0 as int;
        let done = self.done(g);
        let b = self.b_offs@.skip(self.head as int);
        let e = self.e_offs@.skip(self.head as int);
        let p = pieces(chars_of(c), g.x, j + 1);
        self.lemma_fields(g, j, 0);
        pieces_ordered(c, g.x, j + 1);
        assert forall|i: int| 0 <= i < n implies (#[trigger] b[i]) + g.consumed == p[done + i].0
            && e[i] + g.consumed == p[done + i].1 && p[done + i].1 <= j && done + i < p.len() by {
            self.lemma_fields(g, j, i);
            assert(b[i] == self.b_offs@[self.head + i]);
            assert(e[i] == self.e_offs@[self.head + i]);
        }
        assert forall|i: int| 0 <= i < n implies #[trigger] b[i] <= e[i] <= len by {
            assert(p[done + i].0 <= p[done + i].1);
        }
        assert forall|i: int, m: int| 0 <= i < m < n implies e[i] <= b[m] by {
            assert(b[i] + g.consumed == p[done + i].0);
            assert(p[done + i].1 <= p[done + m].0);
        }
        assert(in_order(b, e, n, len));
    }

    /// The removals of the next record are in order.
    proof fn lemma_ascending(self, g: Progress)
        requires
            self.listed(g),
        ensures
            ascending(self.r_offs@.skip(self.r_head as int)),
    {
        let k = chars_of(self.config);
        let r = self.r_offs@.skip(self.r_head as int);
        let test = |i: int| gone(k, g.x, i);
        spots_are(test, g.rs, g.z);
        let sr = spots(test, g.rs, g.z);
        assert forall|i: int, m: int| 0 <= i < m < r.len() implies r[i] < r[m] by {
            assert(shifted(r, g.consumed)[i] == sr[i]);
            assert(shifted(r, g.consumed)[m] == sr[m]);
        }
    }

    /// What is assembled from the lists is the record that the run completes.
    proof fn lemma_assembled(self, buf: Seq<u8>, g: Progress, j: int)
        requires
            self.sound(g),
            self.listed(g),
            !self.needs_chunk_start_b,
            g.completes(self.config, j),
            j - g.consumed <= buf.len(),
            forall|i: int|
                self.record_buf_start <= i < j - g.consumed ==> buf[i] == g.x[g.consumed + i],
        ensures
            assembled(
                buf,
                self.config.field_count->0 as int,
                self.b_offs@.skip(self.head as int),
                self.e_offs@.skip(self.head as int),
                self.r_offs@.skip(self.r_head as int),
                0,
            ) == g.record_at(self.config, j),
    {
        let c = self.config;
        let k = chars_of(c);
        let n = c.field_count->0 as int;
        let done = self.done(g);
        let b = self.b_offs@.skip(self.head as int);
        let e = self.e_offs@.skip(self.head as int);
        let r = self.r_offs@.skip(self.r_head as int);
        let p = pieces(k, g.x, j + 1);
        let record = g.record_at(c, j);
        let got = assembled(buf, n, b, e, r, 0);
        self.lemma_fields(g, j, 0);
        assert(record.len() == n);
        assert forall|i: int| 0 <= i < n implies #[trigger] got[i] == record[i] by {
            self.lemma_fields(g, j, i);
            let at = done + i;
            assert(p.subrange(done, done + n)[i] == p[at]);
            assert(b[i] == self.b_offs@[self.head + i]);
            assert(e[i] == self.e_offs@[self.head + i]);
            keep_is_kept(k, g, buf, r, b[i] as int, e[i] as int);
        }
        assert(got =~= record);
    }

    /// The lists once the next record is out.
    proof fn lemma_advanced(self, g: Progress, j: int, e: int, next: Self)
        requires
            self.sound(g),
            self.listed(g),
            !self.needs_chunk_start_b,
            g.completes(self.config, j),
            j <= e < g.z,
            forall|i: int| j <= i <= e ==> #[trigger] stop_at(chars_of(self.config), g.x, i),
            next == (SimdIndexStepper {
                head: next.head,
                r_head: next.r_head,
                ..self
            }),
            next.head == self.head + self.config.field_count->0,
            self.r_head <= next.r_head <= self.r_offs@.len(),
            ({
                let last_e = self.e_offs@[next.head - 1];
                &&& forall|i: int|
                    self.r_head <= i < next.r_head ==> #[trigger] self.r_offs@[i] <= last_e
                &&& next.r_head < self.r_offs@.len() ==> self.r_offs@[next.r_head as int] > last_e
            }),
        ensures
            next.listed(Progress { q: g.q + 1, rs: e + 1, ..g }),
    {
        let c = self.config;
        let k = chars_of(c);
        let n = c.field_count->0 as int;
        let last_e = self.e_offs@[next.head - 1];
        readable_bytes(c);
        self.lemma_fields(g, j, n - 1);
        let test = |i: int| gone(k, g.x, i);
        assert forall|i: int| last_e + g.consumed < i < e + 1 implies !#[trigger] test(i) by {
            if i >= j {
                assert(stop_at(k, g.x, i));
            }
        }
        passed(
            self.r_offs@,
            self.r_head as int,
            next.r_head as int,
            g.consumed,
            test,
            (g.rs, e + 1, g.z),
            last_e as int,
        );
        let done = self.done(g);
        let g2 = Progress { q: g.q + 1, rs: e + 1, ..g };
        assert(next.done(g2) == done + n) by (nonlinear_arith)
            requires
                done == g.q * n,
                next.done(g2) == (g.q + 1) * n,
        ;
        dropped(self.b_offs@, self.head as int, n, g.consumed, begin_spots(k, g.x, g.z), done);
        dropped(self.e_offs@, self.head as int, n, g.consumed, end_spots(k, g.x, g.z), done);
    }

    /// Emit the next record, which the run of terminators at `j` completes. The
    /// lists then stand behind that run, which reaches as far as `e`.
    fn emit_next<S, O: Output + ?Sized, A: Accumulator<S, O>>(
        &mut self,
        buf: &mut [u8],
        fold: &mut Fold<S, O, A>,
        Ghost(g): Ghost<Progress>,
        Ghost(j): Ghost<int>,
        Ghost(e): Ghost<int>,
    ) -> (r: Result<(), Error>)
        requires
            old(self).sound(g),
            old(self).listed(g),
            !old(self).needs_chunk_start_b,
            g.completes(old(self).config, j),
            j <= e < g.z,
            forall|i: int| j <= i <= e ==> #[trigger] stop_at(chars_of(old(self).config), g.x, i),
            j - g.consumed <= old(buf)@.len(),
            forall|i: int|
                old(self).record_buf_start <= i < j - g.consumed ==> old(buf)@[i] == g.x[g.consumed
                    + i],
            old(fold).wf(),
            old(buf)@.len() <= old(fold).bound(),
            presentable::<O>(g.record_at(old(self).config, j)),
        ensures
            *final(self) == (SimdIndexStepper {
                head: final(self).head,
                r_head: final(self).r_head,
                ..*old(self)
            }),
            final(buf)@.len() == old(buf)@.len(),
            forall|i: int|
                j - g.consumed <= i < old(buf)@.len() ==> final(buf)@[i] == old(buf)@[i],
            final(fold).acc() == old(fold).acc(),
            final(fold).init() == old(fold).init(),
            final(fold).bound() == old(fold).bound(),
            match r {
                Ok(_) => {
                    &&& final(fold).wf()
                    &&& final(fold).log() == old(fold).log().push(g.record_at(old(self).config, j))
                    &&& final(self).head == old(self).head + old(self).config.field_count->0
                    &&& final(self).listed(Progress { q: g.q + 1, rs: e + 1, ..g })
                },
                Err(err) => {
                    &&& final(fold).log() == old(fold).log()
                    &&& refuses::<S, O, A>(
                        old(fold).acc(),
                        old(fold).init(),
                        old(fold).log(),
                        g.record_at(old(self).config, j),
                        err,
                    )
                },
            },
    {
        let ghost c = self.config;
        let ghost k = chars_of(c);
        let ghost record = g.record_at(self.config, j);
        let ghost before = fold.log();
        let n: usize = self.field_counter.n();
        proof {
            self.lemma_assembled(buf@, g, j);
            self.lemma_in_order(buf@.len() as int, g, j);
            self.lemma_ascending(g);
            self.lemma_fields(g, j, n as int - 1);
            readable_bytes(c);
        }
        let b: &[usize] = vstd::slice::slice_subrange(
            self.b_offs.as_slice(),
            self.head,
            self.b_offs.len(),
        );
        let en: &[usize] = vstd::slice::slice_subrange(
            self.e_offs.as_slice(),
            self.head,
            self.e_offs.len(),
        );
        let r: &[usize] = vstd::slice::slice_subrange(
            self.r_offs.as_slice(),
            self.r_head,
            self.r_offs.len(),
        );
        let ghost records = Seq::new(
            1,
            |i: int| assembled(buf@, n as int, b@, en@, r@, i * n),
        );
        proof {
            assert(b@ =~= self.b_offs@.skip(self.head as int));
            assert(en@ =~= self.e_offs@.skip(self.head as int));
            assert(r@ =~= self.r_offs@.skip(self.r_head as int));
            assert(0 * n == 0) by (nonlinear_arith);
            assert(records[0] == record);
            assert(records =~= seq![record]);
        }
        match assemble_records_fixed(buf, n, b, en, r, 1, fold) {
            Ok(_) => {},
            Err(err) => {
                proof {
                    assert(seq![record].take(0) =~= Seq::<Record>::empty());
                    assert(before + Seq::<Record>::empty() =~= before);
                }
                return Err(err);
            },
        }
        proof {
            assert(before + seq![record] =~= before.push(record));
        }
        let last_e: usize = self.e_offs[self.head + n - 1];
        let ghost from = self.r_head as int;
        // Advance the R cursor past the consumed fields.
        while self.r_head < self.r_offs.len() && self.r_offs[self.r_head] <= last_e
            invariant
                from <= self.r_head <= self.r_offs@.len(),
                forall|i: int| from <= i < self.r_head ==> #[trigger] self.r_offs@[i] <= last_e,
                *self == (SimdIndexStepper { r_head: self.r_head, ..*old(self) }),
            decreases self.r_offs@.len() - self.r_head,
        {
            self.r_head = self.r_head + 1;
        }
        self.head = self.head + n;
        proof {
            old(self).lemma_advanced(g, j, e, *self);
        }
        Ok(())
    }

    /// How far the pass has come when `log` holds the records handed out.
    spec fn at(self, p: Pass, consumed: int, z: int, log: Seq<Record>) -> Progress {
        Progress {
            x: p.inp,
            z,
            consumed,
            q: log.len() as int,
            rs: consumed + self.record_buf_start,
        }
    }

    /// The records before the next one are out.
    spec fn caught_up(self, p: Pass, g: Progress, log: Seq<Record>) -> bool {
        let end = scan(self.config, p.boundary, g.x, g.rs as nat).last_end;
        g.caught_up(self.config, p, log, end) && self.last_record_end == placed(end, p.base)
    }

    /// Where the run is that completes the next record, if it is known.
    proof fn lemma_next_run(self, g: Progress)
        requires
            self.sound(g),
            self.listed(g),
            self.counted(g),
            !self.needs_chunk_start_b,
            0 <= g.z <= g.x.len(),
            self.head + self.config.field_count->0 <= self.e_offs@.len(),
        ensures
            ({
                let k = chars_of(self.config);
                let n = self.config.field_count->0 as int;
                let last = self.done(g) + n - 1;
                let e = self.e_offs@[self.head + n - 1] + g.consumed;
                let j = edge_of(k, g.x, g.z, last);
                &&& g.rs <= e
                &&& if pieces(k, g.x, g.z).len() > last {
                    &&& g.completes(self.config, j)
                    &&& e == j || (e == j - 1 && quote_at(k, g.x, e))
                } else {
                    &&& e == g.z - 1
                    &&& quote_at(k, g.x, e)
                }
            }),
    {
        let c = self.config;
        let k = chars_of(c);
        let n = c.field_count->0 as int;
        let done = self.done(g);
        let last = done + n - 1;
        let at = self.e_offs@[self.head + n - 1] + g.consumed;
        let j = edge_of(k, g.x, g.z, last);
        readable_bytes(c);
        let e = self.e_offs@.skip(self.head as int);
        let es = end_spots(k, g.x, g.z);
        assert(shifted(e, g.consumed).len() == es.skip(done).len());
        assert(shifted(e, g.consumed)[n - 1] == es.skip(done)[n - 1]);
        assert(at == es[last]);
        ends_are_pieces(c, g.x, g.z);
        let all = pieces(k, g.x, g.z);
        if all.len() > last {
            edge_is(k, g.x, g.z, last);
            record_ends_run(c, g.x, g.z, j, g.q);
            assert(at == all[last].1);
            assert(g.rs <= j) by {
                if j < g.rs {
                    pieces_grow(k, g.x, j + 1, g.rs);
                }
            }
            if at < g.rs {
                assert(j == g.rs);
                assert(shuts(k, g.x, j - 1));
                quote_before_start(c, g.x, j);
            }
        } else {
            assert(shuts(k, g.x, g.z - 1));
            assert(at == g.z - 1);
            if at < g.rs {
                assert(g.rs == g.z);
                quote_before_start(c, g.x, g.z);
            }
        }
    }

    /// No record can be emitted yet: if the next one is complete at all, its run of
    /// terminators reaches the end of what is known, and the chunk boundary at `cap`
    /// does not cut it short.
    spec fn waits(self, g: Progress, cap: int) -> bool {
        forall|j: int| #[trigger]
            g.completes(self.config, j) ==> {
                &&& cap >= g.z
                &&& forall|i: int| j <= i < g.z ==> #[trigger] stop_at(
                    chars_of(self.config),
                    g.x,
                    i,
                )
            }
    }

    /// Only one run completes the next record.
    proof fn lemma_one_run(self, g: Progress, j: int, other: int)
        requires
            g.completes(self.config, j),
            g.completes(self.config, other),
        ensures
            j == other,
    {
        let k = chars_of(self.config);
        if j < other {
            pieces_grow(k, g.x, j + 1, other);
        }
        if other < j {
            pieces_grow(k, g.x, other + 1, j);
        }
    }

    /// A run that completes the next record is among the pieces known, and its
    /// field among the ends listed.
    proof fn lemma_run_listed(self, g: Progress, j: int)
        requires
            self.sound(g),
            self.listed(g),
            g.completes(self.config, j),
        ensures
            pieces(chars_of(self.config), g.x, g.z).len() >= self.done(g)
                + self.config.field_count->0,
            self.head + self.config.field_count->0 <= self.e_offs@.len(),
    {
        let k = chars_of(self.config);
        let e = self.e_offs@.skip(self.head as int);
        pieces_grow(k, g.x, j + 1, g.z);
        ends_are_pieces(self.config, g.x, g.z);
        assert(shifted(e, g.consumed).len() == end_spots(k, g.x, g.z).skip(self.done(g)).len());
    }

    /// The run of terminators that completes the next record: where it starts,
    /// how far it was followed, and whether it ends there. `None` while
    /// unresolved. A run is followed up to `walk_cap`. Must run before the record
    /// is assembled, which changes the buffer.
    fn next_run(
        &self,
        buf: &[u8],
        resolved_end: usize,
        walk_cap: usize,
        Ghost(g): Ghost<Progress>,
    ) -> (r: Option<(usize, usize, bool)>)
        requires
            self.sound(g),
            self.listed(g),
            self.counted(g),
            !self.needs_chunk_start_b,
            g.z == g.consumed + resolved_end,
            g.z <= g.x.len(),
            walk_cap <= resolved_end <= buf@.len(),
            forall|i: int|
                self.record_buf_start <= i < resolved_end ==> buf@[i] == g.x[g.consumed + i],
        ensures
            match r {
                Some((start, end, ended)) => {
                    let k = chars_of(self.config);
                    &&& g.completes(self.config, g.consumed + start)
                    &&& start <= end < resolved_end
                    &&& forall|i: int|
                        g.consumed + start <= i <= g.consumed + end ==> #[trigger] stop_at(
                            k,
                            g.x,
                            i,
                        )
                    &&& end == start || end + 1 <= walk_cap
                    &&& ended ==> end + 1 < walk_cap && !term_at(k, g.x, g.consumed + end + 1)
                    &&& !ended ==> walk_cap <= end + 1 && walk_cap < resolved_end
                },
                None => self.waits(g, g.consumed + walk_cap),
            },
    {
        let ghost c = self.config;
        let ghost k = chars_of(c);
        let ghost done = self.done(g);
        let n: usize = self.field_counter.n();
        let (term, term_b) = (self.scanner_config.term, self.scanner_config.term_b);
        let live: usize = self.e_offs.len() - self.head;
        if live < n {
            proof {
                assert forall|i: int| #[trigger] g.completes(c, i) implies false by {
                    self.lemma_run_listed(g, i);
                }
            }
            return None;
        }
        let mut p: usize = self.e_offs[self.head + n - 1];
        let ghost first = p;
        let ghost j = edge_of(k, g.x, g.z, done + n - 1);
        proof {
            readable_bytes(c);
            self.lemma_next_run(g);
        }
        while p < resolved_end && !is_term(buf[p], term, term_b)
            invariant
                self.record_buf_start <= p <= resolved_end <= buf@.len(),
                first <= p,
                term == k.term,
                term_b == k.term_b,
                forall|i: int|
                    self.record_buf_start <= i < resolved_end ==> buf@[i] == g.x[g.consumed + i],
                forall|i: int| first <= i < p ==> !#[trigger] term_at(k, g.x, g.consumed + i),
                g.z == g.consumed + resolved_end,
                g.z <= g.x.len(),
            decreases resolved_end - p,
        {
            assert(buf@[p as int] == g.x[g.consumed + p]);
            p += 1;
        }
        if p >= resolved_end {
            proof {
                assert forall|i: int| #[trigger] g.completes(c, i) implies false by {
                    self.lemma_run_listed(g, i);
                    assert(!term_at(k, g.x, g.consumed + (j - g.consumed)));
                }
            }
            return None;
        }
        let run_start: usize = p;
        proof {
            assert(buf@[p as int] == g.x[g.consumed + p]);
            assert(term_at(k, g.x, g.consumed + p));
            let all = pieces(k, g.x, g.z);
            if all.len() > done + n - 1 {
                assert(term_at(k, g.x, j));
                assert(g.consumed + p == j) by {
                    if p + g.consumed > j {
                        assert(!term_at(k, g.x, g.consumed + (j - g.consumed)));
                    }
                }
            } else {
                assert(first == p);
                assert(quote_at(k, g.x, g.z - 1));
                assert(false);
            }
        }
        while p + 1 < walk_cap && is_term(buf[p + 1], term, term_b)
            invariant
                run_start <= p < resolved_end <= buf@.len(),
                walk_cap <= resolved_end,
                p == run_start || p + 1 <= walk_cap,
                self.record_buf_start <= run_start,
                readable(c),
                k == chars_of(c),
                term == k.term,
                term_b == k.term_b,
                forall|i: int|
                    self.record_buf_start <= i < resolved_end ==> buf@[i] == g.x[g.consumed + i],
                forall|i: int|
                    g.consumed + run_start <= i <= g.consumed + p ==> #[trigger] stop_at(
                        k,
                        g.x,
                        i,
                    ),
                g.z == g.consumed + resolved_end,
                g.z <= g.x.len(),
                0 <= g.consumed,
            decreases resolved_end - p,
        {
            proof {
                readable_bytes(c);
                assert(buf@[p + 1] == g.x[g.consumed + p + 1]);
                assert(stop_at(k, g.x, g.consumed + p));
                assert(!quote_at(k, g.x, g.consumed + p + 1));
                assert(stop_at(k, g.x, g.consumed + p + 1));
            }
            p += 1;
        }
        if p + 1 < walk_cap {
            assert(buf@[p + 1] == g.x[g.consumed + p + 1]);
            Some((run_start, p, true))  // ended inside the window
        } else if walk_cap < resolved_end {
            Some((run_start, p, false))  // hit the boundary cap
        } else {
            // Hit `resolved_end`: the run may continue into the
            // pending vector, so defer rather than guess its end.
            proof {
                assert forall|i: int| #[trigger] g.completes(c, i) implies i == g.consumed
                    + run_start by {
                    self.lemma_one_run(g, i, g.consumed + run_start);
                }
            }
            None
        }
    }

    /// The lists and the counts stand where the pass does.
    spec fn follows(self, p: Pass, consumed: int, z: int, log: Seq<Record>) -> bool {
        let g = self.at(p, consumed, z, log);
        &&& self.sound(g)
        &&& self.listed(g)
        &&& self.counted(g)
        &&& self.caught_up(p, g, log)
    }

    /// Emit the records pending in the lists, all that are resolved, stopping after
    /// the first whose end crosses the chunk boundary. `Some(end)` once it is
    /// crossed; a record terminating past `resolved_end` defers.
    fn flush_records<S, O: Output + ?Sized, A: Accumulator<S, O>>(
        &mut self,
        buf: &mut [u8],
        resolved_end: usize,
        ctx: &StepCtx,
        fold: &mut Fold<S, O, A>,
    ) -> (r: Result<Option<usize>, Error>)
        requires
            !old(self).needs_chunk_start_b,
            old(fold).wf(),
            old(buf)@.len() <= old(fold).bound(),
            ({
                let p = ctx.pass@;
                let consumed = ctx.total_consumed - p.base;
                &&& p.wf()
                &&& 0 <= consumed
                &&& old(self).follows(p, consumed, consumed + resolved_end, old(fold).log())
                &&& resolved_end < ctx.scan_end <= old(buf)@.len()
                &&& consumed + old(buf)@.len() <= p.inp.len()
                &&& ctx.remaining_in_chunk == monus(p.boundary, consumed)
                &&& O::textual() ==> old(self).config.ascii() && valid_utf8(
                    p.inp.take(consumed + ctx.scan_end),
                )
                &&& forall|i: int|
                    old(self).record_buf_start <= i < old(buf)@.len() ==> old(buf)@[i]
                        == p.inp[consumed + i]
            }),
        ensures
            *final(self) == (SimdIndexStepper {
                head: final(self).head,
                r_head: final(self).r_head,
                record_buf_start: final(self).record_buf_start,
                last_record_end: final(self).last_record_end,
                ..*old(self)
            }),
            old(self).record_buf_start <= final(self).record_buf_start,
            final(fold).acc() == old(fold).acc(),
            final(fold).init() == old(fold).init(),
            final(fold).bound() == old(fold).bound(),
            final(buf)@.len() == old(buf)@.len(),
            ({
                let p = ctx.pass@;
                let consumed = ctx.total_consumed - p.base;
                let m = p.meaning(old(self).config);
                match r {
                    Ok(None) => {
                        &&& final(fold).wf()
                        &&& final(self).follows(
                            p,
                            consumed,
                            consumed + resolved_end,
                            final(fold).log(),
                        )
                        &&& final(self).waits(
                            final(self).at(
                                p,
                                consumed,
                                consumed + resolved_end,
                                final(fold).log(),
                            ),
                            consumed + ctx.remaining_in_chunk + 1,
                        )
                        &&& forall|i: int|
                            resolved_end <= i < old(buf)@.len() ==> final(buf)@[i] == old(buf)@[i]
                        &&& forall|i: int|
                            final(self).record_buf_start <= i < old(buf)@.len() ==> final(buf)@[i]
                                == p.inp[consumed + i]
                    },
                    Ok(Some(end)) => {
                        &&& final(fold).wf()
                        &&& final(fold).log() == m.records
                        &&& m.end == Ok::<Option<int>, Failure>(Some(end - p.base))
                        &&& ctx.remaining_in_chunk <= end - ctx.total_consumed <= resolved_end
                    },
                    Err(e) => turned_down(*final(fold), m.records, e),
                }
            }),
    {
        let ghost p = ctx.pass@;
        let ghost consumed = ctx.total_consumed - p.base;
        let ghost z = consumed + resolved_end;
        let ghost c = self.config;
        let ghost k = chars_of(c);
        let remaining: usize = ctx.remaining_in_chunk;
        // A run reaching the boundary needs no end, and the cap stops a
        // long run being re-walked on every refill.
        let reach: usize = remaining.saturating_add(1);
        let walk_cap: usize = if reach < resolved_end {
            reach
        } else {
            resolved_end
        };
        loop
            invariant
                *self == (SimdIndexStepper {
                    head: self.head,
                    r_head: self.r_head,
                    record_buf_start: self.record_buf_start,
                    last_record_end: self.last_record_end,
                    ..*old(self)
                }),
                old(self).record_buf_start <= self.record_buf_start,
                c == self.config,
                k == chars_of(c),
                p == ctx.pass@,
                consumed == ctx.total_consumed - p.base,
                z == consumed + resolved_end,
                !self.needs_chunk_start_b,
                p.wf(),
                0 <= consumed,
                resolved_end < ctx.scan_end <= old(buf)@.len(),
                consumed + old(buf)@.len() <= p.inp.len(),
                remaining == ctx.remaining_in_chunk,
                remaining == monus(p.boundary, consumed),
                walk_cap <= resolved_end,
                walk_cap < resolved_end ==> walk_cap == remaining + 1,
                walk_cap <= remaining + 1,
                O::textual() ==> c.ascii() && valid_utf8(p.inp.take(consumed + ctx.scan_end)),
                fold.wf(),
                fold.acc() == old(fold).acc(),
                fold.init() == old(fold).init(),
                fold.bound() == old(fold).bound(),
                buf@.len() <= fold.bound(),
                buf@.len() == old(buf)@.len(),
                self.follows(p, consumed, z, fold.log()),
                forall|i: int|
                    resolved_end <= i < old(buf)@.len() ==> buf@[i] == old(buf)@[i],
                forall|i: int|
                    self.record_buf_start <= i < old(buf)@.len() ==> buf@[i] == p.inp[consumed + i],
            decreases self.e_offs@.len() - self.head,
        {
            let ghost log = fold.log();
            let ghost g = self.at(p, consumed, z, log);
            let (run_start, end, ended) = match self.next_run(
                buf,
                resolved_end,
                walk_cap,
                Ghost(g),
            ) {
                Some(run) => run,
                None => {
                    return Ok(None);
                },
            };
            let ghost j = consumed + run_start;
            let ghost e = consumed + end;
            let ghost before = *self;
            proof {
                next_record(c, p, g, log, scan(c, p.boundary, g.x, g.rs as nat).last_end, j, e);
                self.lemma_fields(g, j, 0);
                if O::textual() {
                    readable_bytes(c);
                    assert(c.controls()[1] == Some(c.terminator.pair().0));
                    assert(c.controls()[2] == c.terminator.pair().1);
                    let all = p.inp.take(consumed + ctx.scan_end);
                    assert(stop_at(k, p.inp, j));
                    assert(all[j] == p.inp[j]);
                    cut_at_ascii(all, j);
                    push_ascii(all.take(j), p.inp[j]);
                    assert(all.take(j).push(p.inp[j]) =~= p.inp.take(j + 1));
                    scan_text(c, beyond(p.inp), p.inp, (j + 1) as nat);
                    let far = scan(c, beyond(p.inp), p.inp, (j + 1) as nat);
                    assert(far.records[g.q] == g.record_at(self.config, j));
                }
            }
            match self.emit_next(buf, fold, Ghost(g), Ghost(j), Ghost(e)) {
                Ok(_) => {},
                Err(err) => {
                    return Err(err);
                },
            }
            let stop: bool = !ended || end >= remaining;
            let handed: usize = ctx.total_consumed + handoff(run_start, remaining, stop);
            self.last_record_end = Some(handed);
            if stop {
                return Ok(Some(handed));
            }
            self.record_buf_start = end + 1;
            proof {
                assert(self.done(self.at(p, consumed, z, fold.log())) == before.done(g)
                    + c.field_count->0) by (nonlinear_arith)
                    requires
                        self.done(self.at(p, consumed, z, fold.log())) == (g.q + 1)
                            * c.field_count->0,
                        before.done(g) == g.q * c.field_count->0,
                ;
            }
        }
    }

    /// The scanner has been given the first `fed` bytes of `x`.
    spec fn fed_by(self, x: Seq<u8>, fed: int) -> bool {
        let k = chars_of(self.config);
        &&& self.scanner.wf()
        &&& self.scanner.chars() == k
        &&& neutral(k, self.pad@)
        &&& self.scanner.stream() == if fed == 0 {
            Seq::<u8>::empty()
        } else {
            padded(self.pad@, self.lead@, x.take(fed))
        }
    }

    /// As long as no mask is known, the lists are as they were at the start.
    proof fn lemma_nothing_yet(self, g: Progress, z: int)
        requires
            self.sound(g),
            self.listed(g),
            self.counted(g),
            -64 <= g.z <= 0,
            -64 <= z <= 0,
        ensures
            self.sound(Progress { z, ..g }),
            self.listed(Progress { z, ..g }),
            self.counted(Progress { z, ..g }),
    {
        let k = chars_of(self.config);
        let g2 = Progress { z, ..g };
        assert(end_spots(k, g.x, z) =~= end_spots(k, g.x, g.z));
        assert(begin_spots(k, g.x, z) =~= begin_spots(k, g.x, g.z));
        assert(g.rs == 0);
        assert(spots(|i: int| gone(k, g.x, i), 0, z) =~= spots(
            |i: int| gone(k, g.x, i),
            0,
            g.z,
        ));
    }

    /// Hand the scanner the vector at buffer offset `cursor`. `false` if what it
    /// then knows shows a record with another number of fields.
    fn take_vector(&mut self, v: &[u8; 64], cursor: usize, Ghost(g): Ghost<Progress>) -> (r: bool)
        requires
            old(self).sound(g),
            old(self).listed(g),
            old(self).counted(g),
            !old(self).needs_chunk_start_b,
            old(self).fed_by(g.x, g.z + 64),
            g.consumed + cursor == g.z + 64,
            g.z + 128 <= g.x.len(),
            g.x.len() - g.consumed <= usize::MAX,
            v@ == g.x.subrange(g.z + 64, g.z + 128),
        ensures
            *final(self) == (SimdIndexStepper {
                scanner: final(self).scanner,
                lead: final(self).lead,
                field_counter: final(self).field_counter,
                b_offs: final(self).b_offs,
                e_offs: final(self).e_offs,
                r_offs: final(self).r_offs,
                ..*old(self)
            }),
            final(self).sound(g),
            !r ==> !regular(
                chars_of(old(self).config),
                g.x,
                old(self).config.field_count->0 as int,
                g.z + 64,
            ),
            r ==> {
                let g2 = Progress { z: g.z + 64, ..g };
                &&& final(self).sound(g2)
                &&& final(self).listed(g2)
                &&& final(self).counted(g2)
                &&& final(self).fed_by(g.x, g.z + 128)
            },
    {
        let ghost k = chars_of(self.config);
        let ghost fed = g.z + 64;
        let base: usize = cursor.wrapping_sub(VECTOR_BYTES);
        let out = self.scanner.step(v);
        self.lead = Ghost(
            if fed == 0 {
                0
            } else {
                self.lead@
            },
        );
        proof {
            let lead = self.lead@;
            let pad = self.pad@;
            let now = padded(pad, lead, g.x.take(fed + 64));
            assert(g.x.take(fed) + v@ =~= g.x.take(fed + 64));
            if fed == 0 {
                assert(Seq::<u8>::empty() + v@ =~= now);
            } else {
                assert(padded(pad, lead, g.x.take(fed)) + v@ =~= now);
            }
            if let Some(out) = out {
                assert(fed > 0);
                unpadded_masks(out, k, pad, lead, g.x.take(fed + 64), g.z);
                masks_of_start(out, k, g.x.take(fed + 64), g.x, g.z);
            } else {
                assert(fed == 0) by {
                    if fed != 0 {
                        assert(padded(pad, lead, g.x.take(fed)).len() > 0);
                    }
                }
                self.lemma_nothing_yet(g, 0);
            }
        }
        match out {
            Some(out) => self.absorb(&out, base, Ghost(g)),
            None => true,
        }
    }

    /// Drop the emitted prefix of the lists.
    fn drop_emitted_prefix(&mut self)
        requires
            old(self).head <= old(self).b_offs@.len(),
            old(self).head <= old(self).e_offs@.len(),
            old(self).r_head <= old(self).r_offs@.len(),
        ensures
            *final(self) == (SimdIndexStepper {
                b_offs: final(self).b_offs,
                e_offs: final(self).e_offs,
                r_offs: final(self).r_offs,
                head: 0,
                r_head: 0,
                ..*old(self)
            }),
            forall|g: Progress| #[trigger] old(self).listed(g) ==> final(self).listed(g),
    {
        let b = self.b_offs.split_off(self.head);
        let e = self.e_offs.split_off(self.head);
        let r = self.r_offs.split_off(self.r_head);
        self.b_offs = b;
        self.e_offs = e;
        self.r_offs = r;
        self.head = 0;
        self.r_head = 0;
        proof {
            let h = old(self).head as int;
            assert(self.b_offs@.skip(0) =~= old(self).b_offs@.skip(h));
            assert(self.e_offs@.skip(0) =~= old(self).e_offs@.skip(h));
            assert(self.r_offs@.skip(0) =~= old(self).r_offs@.skip(old(self).r_head as int));
            assert forall|g: Progress| #[trigger] old(self).listed(g) implies self.listed(g) by {
                assert(self.done(g) == old(self).done(g));
            }
        }
    }

    /// No live offset lies before the next record.
    proof fn lemma_live(self, g: Progress)
        requires
            self.sound(g),
            self.listed(g),
            g.z <= g.x.len(),
            self.head == 0,
            self.r_head == 0,
            self.needs_chunk_start_b ==> self.b_offs@.len() == 0,
        ensures
            forall|i: int|
                0 <= i < self.b_offs@.len() ==> #[trigger] self.b_offs@[i] >= self.record_buf_start,
            forall|i: int|
                0 <= i < self.e_offs@.len() ==> #[trigger] self.e_offs@[i] >= self.record_buf_start,
            forall|i: int|
                0 <= i < self.r_offs@.len() ==> #[trigger] self.r_offs@[i] >= self.record_buf_start,
    {
        if g.rs > 0 {
            let c = self.config;
            let k = chars_of(c);
            let done = self.done(g);
            let p = pieces(k, g.x, g.z);
            let es = end_spots(k, g.x, g.z);
            let bs = begin_spots(k, g.x, g.z);
            let test = |i: int| gone(k, g.x, i);
            readable_bytes(c);
            ends_are_pieces(c, g.x, g.z);
            begins_are_pieces(c, g.x, g.z);
            pieces_ordered(c, g.x, g.z);
            spots_are(test, g.rs, g.z);
            starts_grow(k, g.x, g.rs, g.z);
            assert(self.b_offs@.skip(0) =~= self.b_offs@);
            assert(self.e_offs@.skip(0) =~= self.e_offs@);
            assert(self.r_offs@.skip(0) =~= self.r_offs@);
            assert forall|n: int| done <= n < p.len() implies g.rs <= (#[trigger] p[n]).0 by {
                edge_is(k, g.x, g.z, n);
                let t = edge_of(k, g.x, g.z, n);
                assert(g.rs <= t) by {
                    if t < g.rs {
                        pieces_grow(k, g.x, t + 1, g.rs);
                    }
                }
                starts_grow(k, g.x, g.rs, t);
            }
            assert(shifted(self.e_offs@, g.consumed).len() == es.skip(done).len());
            if !self.needs_chunk_start_b {
                assert(shifted(self.b_offs@, g.consumed).len() == bs.skip(done).len());
            }
            assert forall|i: int| 0 <= i < self.b_offs@.len() implies #[trigger] self.b_offs@[i]
                >= self.record_buf_start by {
                assert(shifted(self.b_offs@, g.consumed)[i] == bs.skip(done)[i]);
                assert(bs.skip(done)[i] == bs[done + i]);
                if done + i < p.len() {
                    assert(bs[done + i] == p[done + i].0);
                }
            }
            assert forall|i: int| 0 <= i < self.e_offs@.len() implies #[trigger] self.e_offs@[i]
                >= self.record_buf_start by {
                assert(shifted(self.e_offs@, g.consumed)[i] == es.skip(done)[i]);
                assert(es.skip(done)[i] == es[done + i]);
                if done + i < p.len() {
                    assert(es[done + i] == p[done + i].1);
                    assert(p[done + i].0 <= p[done + i].1);
                } else {
                    assert(shuts(k, g.x, g.z - 1));
                    if g.z - 1 < g.rs {
                        quote_before_start(c, g.x, g.z);
                    }
                }
            }
            assert forall|i: int| 0 <= i < self.r_offs@.len() implies #[trigger] self.r_offs@[i]
                >= self.record_buf_start by {
                assert(shifted(self.r_offs@, g.consumed)[i] == spots(test, g.rs, g.z)[i]);
            }
        }
    }

    /// A stepper at the start of a chunk.
    pub fn new(config: &Config) -> (r: Self)
        requires
            readable(*config),
        ensures
            r.dialect() == *config,
            r.last() is None,
            r.awaits_prologue(),
            forall|p: Pass|
                p.wf() && starts_clean(chars_of(*config), p.inp) ==> #[trigger] r.tracks_pass(
                    p,
                    0,
                    seq![],
                    seq![],
                ),
    {
        let scanner_config = scanner_config_of(config);
        let field_count: usize = match config.field_count {
            Some(n) => n,
            None => 1,
        };
        let pad: u8 = neutral_pad(
            scanner_config.delim,
            scanner_config.term,
            scanner_config.term_b,
            scanner_config.quote,
        );
        let r = SimdIndexStepper {
            config: *config,
            scanner_config,
            scanner: Scanner::new(scanner_config),
            field_counter: FieldCounter::new(field_count as u32),
            needs_align_prologue: true,
            needs_chunk_start_b: true,
            b_offs: Vec::new(),
            e_offs: Vec::new(),
            r_offs: Vec::new(),
            head: 0,
            r_head: 0,
            record_buf_start: 0,
            last_record_end: None,
            lead: Ghost(0),
            pad: Ghost(pad),
        };
        proof {
            assert forall|p: Pass|
                p.wf() && starts_clean(chars_of(*config), p.inp) implies #[trigger] r.tracks_pass(
                p,
                0,
                seq![],
                seq![],
            ) by {
                let g = r.at(p, 0, -64, seq![]);
                let k = chars_of(*config);
                assert(r.done(g) == 0) by (nonlinear_arith)
                    requires
                        r.done(g) == 0 * (config.field_count->0 as int),
                ;
                assert(r.sound(g));
                assert(rank(k, p.inp, -64) == 0);
                vstd::arithmetic::div_mod::lemma_small_mod(0, config.field_count->0 as nat);
                assert(r.counted(g));
                assert(r.caught_up(p, g, seq![]));
                assert(r.fed_by(p.inp, 0));
                assert(shifted(r.e_offs@.skip(0), 0) =~= end_spots(k, p.inp, -64).skip(0));
                assert(shifted(r.r_offs@.skip(0), 0) =~= spots(
                    |i: int| gone(k, p.inp, i),
                    0,
                    -64,
                ));
            }
        }
        r
    }

    /// The scan has not been put on a vector boundary yet, and may still be.
    pub closed spec fn awaits_prologue(&self) -> bool {
        self.needs_align_prologue
    }

    /// True until [`head_padded_prologue`] has run, or been given up on.
    pub fn needs_align_prologue(&self) -> (r: bool)
        ensures
            r == self.awaits_prologue(),
    {
        self.needs_align_prologue
    }

    /// The dialect.
    pub closed spec fn dialect(&self) -> Config {
        self.config
    }

    /// The last record-end so far.
    pub closed spec fn last(&self) -> Option<usize> {
        self.last_record_end
    }

    /// The stepper has read the pass up to the end of `seen`.
    pub closed spec fn tracks_pass(
        &self,
        p: Pass,
        consumed: int,
        seen: Seq<u8>,
        log: Seq<Record>,
    ) -> bool {
        let fed = consumed + seen.len();
        &&& p.wf()
        &&& fed <= p.inp.len()
        &&& self.follows(p, consumed, fed - 64, log)
        &&& self.fed_by(p.inp, fed)
        &&& self.head == 0
        &&& self.r_head == 0
        &&& self.needs_chunk_start_b ==> fed == 0 && self.b_offs@.len() == 0 && log.len() == 0
        &&& self.record_buf_start <= seen.len()
        &&& forall|i: int|
            self.record_buf_start <= i < seen.len() ==> seen[i] == p.inp[consumed + i]
    }

    /// Note the begin of the chunk's first field, which the scanner omits.
    fn start_chunk(&mut self, Ghost(p): Ghost<Pass>, Ghost(z): Ghost<int>)
        requires
            old(self).needs_chunk_start_b ==> z == -64 && old(self).follows(p, 0, -64, seq![])
                && old(self).head == 0 && old(self).b_offs@.len() == 0,
        ensures
            !final(self).needs_chunk_start_b,
            *final(self) == (SimdIndexStepper {
                needs_chunk_start_b: false,
                b_offs: final(self).b_offs,
                ..*old(self)
            }),
            !old(self).needs_chunk_start_b ==> *final(self) == *old(self),
            old(self).needs_chunk_start_b ==> final(self).follows(p, 0, -64, seq![]),
    {
        if self.needs_chunk_start_b {
            // The chunk's first field begins at byte 0; an opening quote
            // there gets `R[0] = 1`, so the assembly strips it.
            self.b_offs.push(0);
            self.needs_chunk_start_b = false;
            proof {
                let g = self.at(p, 0, -64, seq![]);
                let k = chars_of(self.config);
                assert(self.done(g) == 0) by (nonlinear_arith)
                    requires
                        self.done(g) == 0 * (self.config.field_count->0 as int),
                ;
                assert(shifted(self.b_offs@.skip(0), 0) =~= begin_spots(k, p.inp, -64).skip(0));
            }
        }
    }

    /// What the lists and the counts say of an input, they say of the same input
    /// with a terminator behind it.
    proof fn lemma_closed(self, p: Pass, consumed: int, z: int, log: Seq<Record>)
        requires
            p.wf(),
            self.follows(p, consumed, z, log),
            z + 64 <= p.inp.len(),
            p.inp.len() > 0,
        ensures
            ({
                let x = closed_input(chars_of(self.config), p.inp);
                let g = Progress { x, ..self.at(p, consumed, z, log) };
                &&& self.sound(g)
                &&& self.listed(g)
                &&& self.counted(g)
                &&& self.caught_up(p, g, log)
            }),
    {
        let c = self.config;
        let k = chars_of(c);
        let x = p.inp;
        let y = closed_input(k, x);
        let g = self.at(p, consumed, z, log);
        let g2 = Progress { x: y, ..g };
        let end = scan(c, p.boundary, x, g.rs as nat).last_end;
        closed_progress(c, p, g, log, end);
        let tb = |i: int| begins(k, x, i);
        let te = |i: int| ends(k, x, i);
        let tr = |i: int| gone(k, x, i);
        let ub = |i: int| begins(k, y, i);
        let ue = |i: int| ends(k, y, i);
        let ur = |i: int| gone(k, y, i);
        assert forall|i: int| 0 <= i < z implies #[trigger] tb(i) == ub(i) by {
            mask_at_start(k, x, y, i);
        }
        assert forall|i: int| 0 <= i < z implies #[trigger] te(i) == ue(i) by {
            mask_at_start(k, x, y, i);
        }
        assert forall|i: int| g.rs <= i < z implies #[trigger] tr(i) == ur(i) by {
            mask_at_start(k, x, y, i);
        }
        spots_same(tb, ub, 0, z);
        spots_same(te, ue, 0, z);
        spots_same(tr, ur, g.rs, z);
        assert(self.done(g2) == self.done(g));
    }

    /// Masks known past the end of the input say nothing of it.
    proof fn lemma_to_end(self, g: Progress)
        requires
            self.sound(g),
            self.listed(g),
            self.counted(g),
            g.z >= g.x.len(),
        ensures
            self.sound(Progress { z: g.x.len() as int, ..g }),
            self.listed(Progress { z: g.x.len() as int, ..g }),
            self.counted(Progress { z: g.x.len() as int, ..g }),
    {
        let k = chars_of(self.config);
        let len = g.x.len() as int;
        let tb = |i: int| begins(k, g.x, i);
        let te = |i: int| ends(k, g.x, i);
        let tr = |i: int| gone(k, g.x, i);
        nothing_behind(tb, 0, len, g.z);
        nothing_behind(te, 0, len, g.z);
        nothing_behind(tr, g.rs, len, g.z);
        rank_to_end(k, g.x, g.z);
    }

    /// The scanner has been given the whole input `x`, and `tail` behind it; the last
    /// vector starts at `z`, and `live` bytes of it are the input's.
    spec fn fed_all(self, x: Seq<u8>, tail: Seq<u8>, z: int, live: int) -> bool {
        let k = chars_of(self.config);
        &&& self.scanner.wf()
        &&& self.scanner.chars() == k
        &&& neutral(k, self.pad@)
        &&& self.scanner.stream() == padded(self.pad@, self.lead@, x + tail)
        &&& forall|j: int| 0 <= j < tail.len() ==> neutral(k, #[trigger] tail[j])
        &&& z + 64 == x.len() + tail.len()
        &&& 0 <= live <= 64
        &&& live == 64 - tail.len()
    }

    /// What holds of the stepper when the input has come to its end.
    spec fn at_end(self, ctx: StepCtx, len: int, log: Seq<Record>) -> bool {
        let p = ctx.pass@;
        let consumed = ctx.total_consumed - p.base;
        &&& p.wf()
        &&& 0 <= consumed
        &&& 0 < len == ctx.scan_end
        &&& consumed + len == p.inp.len()
        &&& ctx.scan_start <= ctx.scan_end <= ctx.scan_start + 63
        &&& self.follows(p, consumed, consumed + ctx.scan_start - 64, log)
        &&& self.record_buf_start < len
    }

    /// Feed the tail bytes as a neutral-padded vector, splicing a
    /// synthetic terminator in at the end when the last real byte
    /// isn't one, so the trailing record completes. Returns the base of the last
    /// vector, and how many bytes of it are the input's.
    #[verifier::rlimit(40)]
    fn feed_tail(&mut self, buf: &[u8], ctx: &StepCtx, Ghost(log): Ghost<Seq<Record>>) -> (r:
        Result<(usize, usize, Ghost<int>, Ghost<Seq<u8>>), Error>)
        requires
            !old(self).needs_chunk_start_b,
            old(self).at_end(*ctx, buf@.len() as int, log),
            ({
                let p = ctx.pass@;
                let consumed = ctx.total_consumed - p.base;
                &&& old(self).fed_by(p.inp, consumed + ctx.scan_start)
                &&& forall|i: int|
                    old(self).record_buf_start <= i < buf@.len() ==> buf@[i] == p.inp[consumed + i]
            }),
        ensures
            *final(self) == (SimdIndexStepper {
                scanner: final(self).scanner,
                lead: final(self).lead,
                field_counter: final(self).field_counter,
                b_offs: final(self).b_offs,
                e_offs: final(self).e_offs,
                r_offs: final(self).r_offs,
                ..*old(self)
            }),
            ({
                let p = ctx.pass@;
                let c = old(self).config;
                let consumed = ctx.total_consumed - p.base;
                let x = closed_input(chars_of(c), p.inp);
                match r {
                    Ok((base, live, z, tail)) => {
                        let g = Progress { x, ..old(self).at(p, consumed, z@, log) };
                        &&& final(self).sound(g)
                        &&& final(self).listed(g)
                        &&& final(self).counted(g)
                        &&& final(self).fed_all(x, tail@, z@, live as int)
                        &&& base == if z@ >= consumed {
                            z@ - consumed
                        } else {
                            z@ - consumed + usize::MAX + 1
                        }
                    },
                    Err(e) => eager_report(c, p, e),
                }
            }),
    {
        let ghost p = ctx.pass@;
        let ghost consumed = ctx.total_consumed - p.base;
        let ghost c = self.config;
        let ghost k = chars_of(c);
        let ghost inp = p.inp;
        let ghost x = closed_input(k, inp);
        let ghost fed = consumed + ctx.scan_start;
        let ghost z = fed - 64;
        let ghost start = self.at(p, consumed, z, log);
        let ghost g = Progress { x, ..start };
        let cursor: usize = ctx.scan_start;
        let scan_end: usize = ctx.scan_end;
        let (term, term_b) = (self.scanner_config.term, self.scanner_config.term_b);
        // Splicing after a real terminator would fabricate an empty line the
        // verifier rejects, hence the guard.
        let real_tail_len: usize = scan_end - cursor;
        let needs_virtual_term: bool = !is_term(buf[scan_end - 1], term, term_b);
        let base: usize = cursor.wrapping_sub(VECTOR_BYTES);
        proof {
            assert(buf@[scan_end - 1] == inp[inp.len() - 1]);
            assert(x == if needs_virtual_term {
                inp.push(k.term)
            } else {
                inp
            });
            readable_bytes(c);
            self.lemma_closed(p, consumed, z, log);
        }
        if real_tail_len == 0 && !needs_virtual_term {
            proof {
                assert(inp.take(fed) =~= inp);
                assert(x + Seq::<u8>::empty() =~= x);
            }
            return Ok((base, VECTOR_BYTES, Ghost(z), Ghost(Seq::empty())));
        }
        let cfg = self.scanner_config;
        let pad: u8 = neutral_pad(cfg.delim, cfg.term, cfg.term_b, cfg.quote);
        let part: &[u8] = vstd::slice::slice_subrange(buf, cursor, scan_end);
        let mut v: [u8; 64] = padded_vector(part, real_tail_len, pad);
        let mut live: usize = real_tail_len;
        if needs_virtual_term {
            v[real_tail_len] = term;
            live = real_tail_len + 1;
        }
        let out = self.scanner.step(&v);
        self.lead = Ghost(
            if fed == 0 {
                0
            } else {
                self.lead@
            },
        );
        let ghost tail = Seq::new((64 - live) as nat, |i: int| pad);
        proof {
            let y = x + tail;
            assert(inp.take(fed) + v@ =~= y);
            let now = padded(self.pad@, self.lead@, y);
            if fed == 0 {
                assert(Seq::<u8>::empty() + v@ =~= now);
            } else {
                assert(padded(self.pad@, self.lead@, inp.take(fed)) + v@ =~= now);
            }
            if let Some(out) = out {
                unpadded_masks(out, k, self.pad@, self.lead@, y, z);
                clipped_masks(out, out.b, k, x, tail, z);
            } else {
                assert(fed == 0) by {
                    if fed != 0 {
                        assert(padded(self.pad@, self.lead@, inp.take(fed)).len() > 0);
                    }
                }
                self.lemma_nothing_yet(g, 0);
            }
        }
        if let Some(out) = out {
            if !self.absorb(&out, base, Ghost(g)) {
                proof {
                    irregular_is_faulty(c, inp, x, g.rs, z, z + 64, inp.len() as int);
                }
                return Err(
                    arity_error(
                        buf,
                        self.record_buf_start,
                        self.field_counter.n(),
                        self.scanner_config,
                        ctx.total_consumed,
                        Ghost(c),
                        Ghost(p),
                        Ghost(start),
                    ),
                );
            }
        }
        Ok((cursor, live, Ghost(fed), Ghost(tail)))
    }

    /// Feed the rest of the input, and take what the scanner still holds back.
    /// The input counts as terminated.
    #[verifier::rlimit(40)]
    fn drain(&mut self, buf: &[u8], ctx: &StepCtx, Ghost(log): Ghost<Seq<Record>>) -> (r: Result<
        (),
        Error,
    >)
        requires
            !old(self).needs_chunk_start_b,
            old(self).at_end(*ctx, buf@.len() as int, log),
            ({
                let p = ctx.pass@;
                let consumed = ctx.total_consumed - p.base;
                &&& old(self).fed_by(p.inp, consumed + ctx.scan_start)
                &&& forall|i: int|
                    old(self).record_buf_start <= i < buf@.len() ==> buf@[i] == p.inp[consumed + i]
            }),
        ensures
            *final(self) == (SimdIndexStepper {
                scanner: final(self).scanner,
                lead: final(self).lead,
                field_counter: final(self).field_counter,
                b_offs: final(self).b_offs,
                e_offs: final(self).e_offs,
                r_offs: final(self).r_offs,
                ..*old(self)
            }),
            ({
                let p = ctx.pass@;
                let c = old(self).config;
                let k = chars_of(c);
                let x = closed_input(k, p.inp);
                let g = Progress {
                    x,
                    ..old(self).at(p, ctx.total_consumed - p.base, x.len() as int, log)
                };
                match r {
                    Ok(_) => {
                        &&& final(self).sound(g)
                        &&& final(self).listed(g)
                        &&& final(self).counted(g)
                        &&& final(self).caught_up(p, g, log)
                        &&& final(self).scanner.spent()
                        &&& inside(
                            final(self).scanner.chars(),
                            final(self).scanner.stream(),
                            final(self).scanner.stream().len() as int,
                        ) == inside(k, x, x.len() as int)
                    },
                    Err(e) => eager_report(c, p, e),
                }
            }),
    {
        let ghost p = ctx.pass@;
        let ghost consumed = ctx.total_consumed - p.base;
        let ghost c = self.config;
        let ghost k = chars_of(c);
        let ghost inp = p.inp;
        let ghost x = closed_input(k, inp);
        let ghost start = self.at(p, consumed, consumed + ctx.scan_start - 64, log);
        proof {
            self.lemma_closed(p, consumed, consumed + ctx.scan_start - 64, log);
            readable_bytes(c);
        }
        let (base, live, Ghost(z), Ghost(tail)) = match self.feed_tail(buf, ctx, Ghost(log)) {
            Ok(fed) => fed,
            Err(e) => {
                return Err(e);
            },
        };
        let ghost g = Progress { x, ..self.at(p, consumed, z, log) };
        let ghost y = x + tail;
        if let Some(out) = self.scanner.finalize() {
            // Trim begins in the pad region.
            let clipped = VectorOutput { b: both(out.b, below(live)), ..out };
            proof {
                assert(!quote_at(k, x, x.len() - 1)) by {
                    if x.len() > inp.len() {
                        assert(x[inp.len() as int] == k.term);
                    }
                    assert(term_at(k, x, x.len() - 1));
                }
                unpadded_masks(out, k, self.pad@, self.lead@, y, z);
                clipped_masks(out, clipped.b, k, x, tail, z);
            }
            if !self.absorb(&clipped, base, Ghost(g)) {
                proof {
                    irregular_is_faulty(c, inp, x, g.rs, z, z + 64, inp.len() as int);
                }
                return Err(
                    arity_error(
                        buf,
                        self.record_buf_start,
                        self.field_counter.n(),
                        self.scanner_config,
                        ctx.total_consumed,
                        Ghost(c),
                        Ghost(p),
                        Ghost(start),
                    ),
                );
            }
        }
        proof {
            self.lemma_to_end(Progress { z: z + 64, ..g });
            inside_padded(k, self.pad@, self.lead@, y, self.scanner.stream().len() as int);
            inside_followed(k, x, tail, y.len() as int);
        }
        Ok(())
    }

    /// The error of an input that ends inside a quoted field.
    fn unclosed_error(
        &self,
        buf: &[u8],
        total_consumed: usize,
        Ghost(p): Ghost<Pass>,
        Ghost(log): Ghost<Seq<Record>>,
    ) -> (r: Error)
        requires
            p.wf(),
            p.base <= total_consumed,
            !self.needs_chunk_start_b,
            self.head == 0,
            ({
                let consumed = total_consumed - p.base;
                let k = chars_of(self.config);
                let x = closed_input(k, p.inp);
                let g = Progress { x, ..self.at(p, consumed, x.len() as int, log) };
                &&& 0 < buf@.len()
                &&& consumed + buf@.len() == p.inp.len()
                &&& self.sound(g)
                &&& self.listed(g)
                &&& self.counted(g)
                &&& inside(k, x, x.len() as int)
                &&& forall|i: int|
                    self.record_buf_start <= i < buf@.len() ==> buf@[i] == p.inp[consumed + i]
            }),
        ensures
            eager_report(self.config, p, r),
    {
        let ghost consumed = total_consumed - p.base;
        let ghost c = self.config;
        let ghost k = chars_of(c);
        let ghost n = c.field_count->0 as int;
        let ghost inp = p.inp;
        let ghost x = closed_input(k, inp);
        let ghost len = inp.len() as int;
        let ghost g = Progress { x, ..self.at(p, consumed, x.len() as int, log) };
        let ghost f = field_start(k, x, x.len() as int);
        proof {
            readable_bytes(c);
            starts_before(k, x, x.len() as int);
            not_inside_at_start(c, x, x.len() as int);
            // the last byte is in a field that has begun
            lines_of_start(k, inp, x, len, len);
            if x.len() > len {
                assert(x[len] == k.term);
                assert(inside(k, x, len + 1) == (inside(k, x, len) != quote_at(k, x, len)));
                assert(field_start(k, x, len + 1) == field_start(k, x, len));
                assert(line_start(k, x, len + 1) == line_start(k, x, len));
            }
            assert(!quote_at(k, x, x.len() - 1));
            assert(begun(k, x, x.len() as int));
            begins_are_pieces(c, x, x.len() as int);
            pieces_grow(k, x, g.rs, x.len() as int);
            starts_grow(k, x, g.rs, x.len() as int);
            let bs = begin_spots(k, x, x.len() as int);
            let done = self.done(g);
            assert(self.b_offs@.skip(0) =~= self.b_offs@);
            assert(shifted(self.b_offs@, consumed).len() == bs.skip(done).len());
            assert(shifted(self.b_offs@, consumed).last() == bs.skip(done).last());
            assert(bs.last() == begin_of(k, x, f));
            // nothing went wrong before
            regular_lines(c, x, x.len() as int, x.len() as int);
            assert forall|j: int| 0 <= j < len implies !#[trigger] bad_line(k, inp, n, j) by {
                lines_of_start(k, inp, x, len, j);
                assert(!bad_line(k, x, n, j));
            }
            not_inside_at_start(c, inp, len);
            starts_before(k, inp, len);
            last_line_ends(c, inp);
        }
        let b: usize = self.b_offs[self.b_offs.len() - 1];
        proof {
            if f > 0 {
                starts_follow(k, x, x.len() as int);
                assert(!quote_at(k, x, f - 1));
            }
            if b > self.record_buf_start && b <= buf@.len() {
                assert(buf@[b - 1] == inp[consumed + b - 1]);
            }
        }
        let position: usize = if b > self.record_buf_start && b <= buf.len() && is_quote(
            buf[b - 1],
            self.scanner_config.quote,
        ) {
            b - 1
        } else {
            b
        };
        assert(consumed + position == f);
        Error::UnclosedQuote { position: Position { byte_offset: total_consumed + position } }
    }

    /// The run of terminators that completes the next record, once the end of the
    /// input is known: where it starts, and where it ends.
    fn last_run(
        &self,
        buf: &[u8],
        last_e: usize,
        Ghost(inp): Ghost<Seq<u8>>,
        Ghost(g): Ghost<Progress>,
    ) -> (r: (usize, usize))
        requires
            self.sound(g),
            self.listed(g),
            self.counted(g),
            !self.needs_chunk_start_b,
            0 < inp.len(),
            g.x == closed_input(chars_of(self.config), inp),
            g.z == g.x.len(),
            g.consumed + buf@.len() == inp.len() < usize::MAX,
            self.head + self.config.field_count->0 <= self.e_offs@.len(),
            last_e == self.e_offs@[self.head + self.config.field_count->0 - 1],
            forall|i: int|
                self.record_buf_start <= i < buf@.len() ==> buf@[i] == inp[g.consumed + i],
        ensures
            ({
                let k = chars_of(self.config);
                &&& g.completes(self.config, g.consumed + r.0)
                &&& r.0 <= r.1 <= buf@.len()
                &&& g.consumed + r.1 < g.x.len()
                &&& forall|i: int|
                    g.consumed + r.0 <= i <= g.consumed + r.1 ==> #[trigger] stop_at(k, g.x, i)
                &&& !term_at(k, g.x, g.consumed + r.1 + 1)
            }),
    {
        let ghost c = self.config;
        let ghost k = chars_of(c);
        let ghost x = g.x;
        let scan_end: usize = buf.len();
        let ghost n = c.field_count->0;
        let (term, term_b) = (self.scanner_config.term, self.scanner_config.term_b);
        // The last field's E is the terminator or the closing quote,
        // so scan forward to the terminator and across its run.
        let mut rec_end: usize = last_e;
        let ghost first = last_e;
        let ghost j = edge_of(k, x, g.z, self.done(g) + n - 1);
        proof {
            readable_bytes(c);
            self.lemma_next_run(g);
            assert(term_at(k, x, x.len() - 1)) by {
                if x.len() > inp.len() {
                    assert(x[inp.len() as int] == k.term);
                }
            }
            assert(g.completes(self.config, j));
            assert(term_at(k, x, j));
            assert(j <= g.consumed + scan_end);
        }
        while rec_end < scan_end && !is_term(buf[rec_end], term, term_b)
            invariant
                self.record_buf_start <= rec_end <= scan_end == buf@.len(),
                first <= rec_end,
                term == k.term,
                term_b == k.term_b,
                g.consumed + buf@.len() == inp.len(),
                0 <= g.consumed,
                x == closed_input(k, inp),
                first + g.consumed <= j,
                rec_end + g.consumed <= j,
                term_at(k, x, j),
                forall|i: int|
                    self.record_buf_start <= i < buf@.len() ==> buf@[i] == inp[g.consumed + i],
                forall|i: int| first <= i < rec_end ==> !#[trigger] term_at(k, x, g.consumed + i),
            decreases scan_end - rec_end,
        {
            assert(buf@[rec_end as int] == inp[g.consumed + rec_end]);
            assert(!term_at(k, x, g.consumed + rec_end));
            rec_end += 1;
        }
        let run_start: usize = rec_end;
        proof {
            if rec_end < scan_end {
                assert(buf@[rec_end as int] == inp[g.consumed + rec_end]);
                assert(term_at(k, x, g.consumed + rec_end));
                assert(g.consumed + rec_end == j);
            }
            assert(g.consumed + rec_end == j);
            assert(stop_at(k, x, j));
        }
        while rec_end < scan_end && rec_end + 1 < scan_end && is_term(
            buf[rec_end + 1],
            term,
            term_b,
        )
            invariant
                run_start <= rec_end <= scan_end == buf@.len(),
                self.record_buf_start <= run_start,
                readable(c),
                k == chars_of(c),
                term == k.term,
                term_b == k.term_b,
                g.consumed + buf@.len() == inp.len(),
                0 <= g.consumed,
                x == closed_input(k, inp),
                g.consumed + rec_end < x.len(),
                forall|i: int|
                    self.record_buf_start <= i < buf@.len() ==> buf@[i] == inp[g.consumed + i],
                forall|i: int|
                    g.consumed + run_start <= i <= g.consumed + rec_end ==> #[trigger] stop_at(
                        k,
                        x,
                        i,
                    ),
            decreases scan_end - rec_end,
        {
            proof {
                readable_bytes(c);
                assert(buf@[rec_end + 1] == inp[g.consumed + rec_end + 1]);
                assert(stop_at(k, x, g.consumed + rec_end));
                assert(!quote_at(k, x, g.consumed + rec_end + 1));
                assert(stop_at(k, x, g.consumed + rec_end + 1));
            }
            rec_end += 1;
        }
        proof {
            let e = g.consumed + rec_end;
            assert(stop_at(k, x, e));
            if rec_end + 1 < scan_end {
                assert(buf@[rec_end + 1] == inp[e + 1]);
            } else if rec_end + 1 == scan_end {
                assert(inp[e] == x[e]);
                assert(x == inp);
            }
        }
        (run_start, rec_end)
    }

    /// Once no list holds another record, all records are out.
    proof fn lemma_all_out(self, p: Pass, g: Progress, log: Seq<Record>)
        requires
            self.sound(g),
            self.listed(g),
            self.counted(g),
            self.caught_up(p, g, log),
            self.e_offs@.len() - self.head < self.config.field_count->0,
            g.z == g.x.len(),
            term_at(chars_of(self.config), g.x, g.x.len() - 1),
            !inside(chars_of(self.config), g.x, g.x.len() as int),
        ensures
            ({
                let all = outcome(self.config, p.boundary, g.x);
                &&& all.records == log
                &&& all.end matches Ok(end) && placed(end, p.base) == self.last_record_end
            }),
    {
        let c = self.config;
        let k = chars_of(c);
        let end = scan(c, p.boundary, g.x, g.rs as nat).last_end;
        let e = self.e_offs@.skip(self.head as int);
        ends_are_pieces(c, g.x, g.z);
        assert(shifted(e, g.consumed).len() == end_spots(k, g.x, g.z).skip(self.done(g)).len());
        all_out(c, p, g, log, end);
    }
}

impl<O: Output + ?Sized> ChunkStepper<O> for SimdIndexStepper {
    open spec fn config(&self) -> Config {
        self.dialect()
    }

    open spec fn tracks(&self, p: Pass, consumed: int, seen: Seq<u8>, log: Seq<Record>) -> bool {
        self.tracks_pass(p, consumed, seen, log)
    }

    closed spec fn spare(&self, pos: int) -> int {
        self.record_buf_start as int
    }

    open spec fn last_end(&self) -> Option<usize> {
        self.last()
    }

    open spec fn lag() -> nat {
        63
    }

    open spec fn exact() -> bool {
        false
    }

    #[verifier::rlimit(60)]
    fn step<S, A: Accumulator<S, O>>(
        &mut self,
        buf: &mut [u8],
        ctx: StepCtx,
        fold: &mut Fold<S, O, A>,
    ) -> (r: StepResult) {
        let ghost p = ctx.pass@;
        let ghost consumed = ctx.total_consumed - p.base;
        let ghost c = self.config;
        let ghost k = chars_of(c);
        let ghost x = p.inp;
        let scan_end: usize = ctx.scan_end;
        let mut cursor: usize = ctx.scan_start;
        let ghost shown = buf@;
        proof {
            assert(shown.take(cursor as int).len() == cursor);
            assert(consumed + cursor == 0 || cursor > 0);
            assert forall|i: int| self.record_buf_start <= i < shown.len() implies shown[i]
                == x[consumed + i] by {
                if i >= cursor {
                    assert(shown.skip(cursor as int)[i - cursor] == x.subrange(
                        consumed + cursor,
                        consumed + shown.len(),
                    )[i - cursor]);
                } else {
                    assert(shown.take(cursor as int)[i] == shown[i]);
                }
            }
            if self.needs_chunk_start_b {
                assert(fold.log() =~= seq![]);
            }
        }
        self.start_chunk(Ghost(p), Ghost(consumed + cursor - 64));
        // Put the scan on a 64-byte boundary before the first real vector;
        // the stride fixes every later load. The prologue is an ordinary
        // `Scanner::step` whose neutral pad leaves the carries where a
        // scan starting at the record would.
        if self.needs_align_prologue && cursor == 0 {
            let cfg = self.scanner_config;
            let pad: u8 = neutral_pad(cfg.delim, cfg.term, cfg.term_b, cfg.quote);
            match head_padded_prologue(buf, scan_end, pad) {
                Prologue::Vector(v, misalign) => {
                    let _first = self.scanner.step(&v);
                    self.lead = Ghost(misalign as nat);
                    self.pad = Ghost(pad);
                    proof {
                        assert(consumed == 0);
                        assert(buf@.take(64 - misalign) =~= x.take(64 - misalign));
                        assert(Seq::<u8>::empty() + v@ =~= padded(
                            pad,
                            misalign as nat,
                            x.take(64 - misalign),
                        ));
                        self.lemma_nothing_yet(
                            self.at(p, 0, -64, fold.log()),
                            -misalign,
                        );
                    }
                    cursor = VECTOR_BYTES - misalign;
                    self.needs_align_prologue = false;
                },
                Prologue::Aligned => {
                    self.needs_align_prologue = false;
                },
                // Retrying is only possible while the loop below scans
                // nothing: one vector from 0 and `cursor` never returns.
                Prologue::TooShort => {
                    self.needs_align_prologue = scan_end < VECTOR_BYTES;
                },
            }
        }
        let n: usize = self.field_counter.n();
        while scan_end - cursor >= VECTOR_BYTES
            invariant
                p == ctx.pass@,
                consumed == ctx.total_consumed - p.base,
                x == p.inp,
                c == old(self).config,
                self.config == c,
                n == c.field_count->0,
                k == chars_of(c),
                shown == old(buf)@,
                scan_end == ctx.scan_end,
                ctx.fits(p, shown, c, O::textual()),
                ctx.scan_start <= cursor <= scan_end <= shown.len(),
                buf@.len() == shown.len(),
                fold.wf(),
                fold.acc() == old(fold).acc(),
                fold.init() == old(fold).init(),
                fold.bound() == old(fold).bound(),
                buf@.len() <= fold.bound(),
                !self.needs_chunk_start_b,
                self.follows(p, consumed, consumed + cursor - 64, fold.log()),
                self.fed_by(x, consumed + cursor),
                self.record_buf_start <= cursor,
                forall|i: int| cursor <= i < shown.len() ==> buf@[i] == shown[i],
                forall|i: int|
                    self.record_buf_start <= i < shown.len() ==> buf@[i] == x[consumed + i],
            decreases scan_end - cursor,
        {
            let ghost z = consumed + cursor - 64;
            let ghost g = self.at(p, consumed, z, fold.log());
            let part: &[u8] = vstd::slice::slice_subrange(buf, cursor, cursor + VECTOR_BYTES);
            let v: [u8; 64] = padded_vector(part, VECTOR_BYTES, 0);
            proof {
                assert(v@ =~= x.subrange(z + 64, z + 128));
            }
            if !self.take_vector(&v, cursor, Ghost(g)) {
                proof {
                    irregular_is_faulty(
                        c,
                        x,
                        x,
                        g.rs,
                        z,
                        z + 64,
                        consumed + scan_end,
                    );
                }
                let seen: &[u8] = vstd::slice::slice_subrange(buf, 0, scan_end);
                return StepResult::Error(
                    arity_error(
                        seen,
                        self.record_buf_start,
                        n,
                        self.scanner_config,
                        ctx.total_consumed,
                        Ghost(c),
                        Ghost(p),
                        Ghost(g),
                    ),
                );
            }
            cursor = cursor + VECTOR_BYTES;
            // Batched: the flush below still emits every record
            // this step completed, before suspending.
            if self.e_offs.len() - self.head >= EMIT_BATCH_FIELDS {
                match self.flush_records(buf, cursor - VECTOR_BYTES, &ctx, fold) {
                    Ok(None) => {},
                    Ok(Some(end)) => {
                        return StepResult::Done(end);
                    },
                    Err(e) => {
                        return StepResult::Error(e);
                    },
                }
                // Compact periodically to keep the live suffix small.
                if self.head >= COMPACT_THRESHOLD {
                    self.drop_emitted_prefix();
                }
            }
        }
        // The in-loop flush only fires on the batch threshold, so pick up
        // the records this step's tail vectors completed.
        if self.e_offs.len() - self.head >= n && cursor >= VECTOR_BYTES {
            match self.flush_records(buf, cursor - VECTOR_BYTES, &ctx, fold) {
                Ok(None) => {},
                Ok(Some(end)) => {
                    return StepResult::Done(end);
                },
                Err(e) => {
                    return StepResult::Error(e);
                },
            }
        }
        proof {
            let g = self.at(p, consumed, consumed + cursor - 64, fold.log());
            assert forall|j: int, i: int|
                #![trigger g.completes(c, j), stop_at(k, x, i)]
                g.completes(c, j) && j <= i < g.z implies stop_at(k, x, i) by {
                if self.e_offs@.len() - self.head < n {
                    self.lemma_run_listed(g, j);
                }
            }
            held_back(c, p, g, fold.log(), scan(c, p.boundary, x, g.rs as nat).last_end);
        }
        // Final compaction so the persisted lists hold only live entries.
        if self.head != 0 || self.r_head != 0 {
            self.drop_emitted_prefix();
        }
        proof {
            assert(buf@.skip(cursor as int) =~= shown.skip(cursor as int));
        }
        // The pending vector's bytes must stay, so it pins the consume limit.
        StepResult::Suspended {
            resume_at: cursor,
            consumable: self.record_buf_start,
            last_record_end: self.last_record_end,
        }
    }

    fn consume(
        &mut self,
        n: usize,
        Ghost(p): Ghost<Pass>,
        Ghost(consumed): Ghost<int>,
        Ghost(seen): Ghost<Seq<u8>>,
        Ghost(log): Ghost<Seq<Record>>,
    ) {
        let ghost z = consumed + seen.len() - 64;
        let ghost g = self.at(p, consumed, z, log);
        let ghost k = chars_of(self.config);
        proof {
            self.lemma_live(g);
        }
        self.record_buf_start = self.record_buf_start - n;
        shift_down(&mut self.b_offs, n);
        shift_down(&mut self.e_offs, n);
        shift_down(&mut self.r_offs, n);
        proof {
            let g2 = self.at(p, consumed + n, z, log);
            assert(self.b_offs@.skip(0) =~= self.b_offs@);
            assert(self.e_offs@.skip(0) =~= self.e_offs@);
            assert(self.r_offs@.skip(0) =~= self.r_offs@);
            assert(old(self).b_offs@.skip(0) =~= old(self).b_offs@);
            assert(old(self).e_offs@.skip(0) =~= old(self).e_offs@);
            assert(old(self).r_offs@.skip(0) =~= old(self).r_offs@);
            assert(shifted(self.b_offs@, consumed + n) =~= shifted(old(self).b_offs@, consumed));
            assert(shifted(self.e_offs@, consumed + n) =~= shifted(old(self).e_offs@, consumed));
            assert(shifted(self.r_offs@, consumed + n) =~= shifted(old(self).r_offs@, consumed));
            assert(self.done(g2) == old(self).done(g));
        }
    }

#[verifier::rlimit(60)]
    fn finalize<S, A: Accumulator<S, O>>(
        &mut self,
        buf: &mut [u8],
        ctx: StepCtx,
        fold: &mut Fold<S, O, A>,
    ) -> (r: Result<Option<usize>, Error>) {
        let ghost p = ctx.pass@;
        let ghost consumed = ctx.total_consumed - p.base;
        let ghost c = self.config;
        let ghost k = chars_of(c);
        let ghost inp = p.inp;
        let ghost x = closed_input(k, inp);
        let ghost shown = buf@;
        let ghost cursor = ctx.scan_start as int;
        let scan_end: usize = ctx.scan_end;
        proof {
            assert(shown.take(cursor).len() == cursor);
        }
        if scan_end == 0 {
            assert(self.record_buf_start == 0);
            return Ok(self.last_record_end);
        }
        proof {
            assert forall|i: int| self.record_buf_start <= i < shown.len() implies shown[i]
                == inp[consumed + i] by {
                if i >= cursor {
                    assert(shown.skip(cursor)[i - cursor] == inp.subrange(
                        consumed + cursor,
                        consumed + shown.len(),
                    )[i - cursor]);
                } else {
                    assert(shown.take(cursor)[i] == shown[i]);
                }
            }
            if self.needs_chunk_start_b {
                assert(fold.log() =~= seq![]);
            }
            readable_bytes(c);
            if x.len() > inp.len() {
                closing_terminator(c, p.boundary, inp);
                assert(x[inp.len() as int] == k.term);
            }
            assert(term_at(k, x, x.len() - 1));
            if O::textual() {
                assert(c.controls()[1] == Some(c.terminator.pair().0));
                assert(c.controls()[2] == c.terminator.pair().1);
                assert(inp.take(consumed + scan_end) =~= inp);
                if x.len() > inp.len() {
                    push_ascii(inp, k.term);
                }
            }
        }
        self.start_chunk(Ghost(p), Ghost(consumed + cursor - 64));
        match self.drain(buf, &ctx, Ghost(fold.log())) {
            Ok(_) => {},
            Err(e) => {
                return Err(e);
            },
        }
        // Ending mid-quoted-field mirrors the DFA's UnclosedQuote.
        if self.scanner.in_quotes() {
            return Err(
                self.unclosed_error(buf, ctx.total_consumed, Ghost(p), Ghost(fold.log())),
            );
        }
        // One record at a time, so the per-record boundary stop applies
        // (a chunk under 64 B never iterates in `step`).
        let n: usize = self.field_counter.n();
        while self.e_offs.len() - self.head >= n
            invariant
                p == ctx.pass@,
                p.wf(),
                consumed == ctx.total_consumed - p.base,
                0 <= consumed,
                inp == p.inp,
                c == old(self).config,
                self.config == c,
                k == chars_of(c),
                x == closed_input(k, inp),
                n == c.field_count->0,
                scan_end == ctx.scan_end == shown.len(),
                consumed + scan_end == inp.len(),
                ctx.remaining_in_chunk == monus(p.boundary, consumed),
                outcome(c, p.boundary, x) == outcome(c, p.boundary, inp),
                term_at(k, x, x.len() - 1),
                !inside(k, x, x.len() as int),
                O::textual() ==> c.ascii() && valid_utf8(x),
                buf@.len() == shown.len(),
                shown == old(buf)@,
                fold.wf(),
                fold.acc() == old(fold).acc(),
                fold.init() == old(fold).init(),
                fold.bound() == old(fold).bound(),
                buf@.len() <= fold.bound(),
                !self.needs_chunk_start_b,
                ({
                    let g = Progress { x, ..self.at(p, consumed, x.len() as int, fold.log()) };
                    &&& self.sound(g)
                    &&& self.listed(g)
                    &&& self.counted(g)
                    &&& self.caught_up(p, g, fold.log())
                }),
                self.last_record_end == old(self).last_record_end || self.last_record_end is Some,
                forall|i: int|
                    self.record_buf_start <= i < shown.len() ==> buf@[i] == inp[consumed + i],
            decreases self.e_offs@.len() - self.head,
        {
            let ghost log = fold.log();
            let ghost g = Progress { x, ..self.at(p, consumed, x.len() as int, log) };
            let last_e: usize = self.e_offs[self.head + n - 1];
            let (run_start, rec_end) = self.last_run(buf, last_e, Ghost(inp), Ghost(g));
            let ghost j = consumed + run_start;
            let ghost e = consumed + rec_end;
            let ghost before = *self;
            proof {
                next_record(c, p, g, log, scan(c, p.boundary, g.x, g.rs as nat).last_end, j, e);
                if O::textual() {
                    assert(c.controls()[1] == Some(c.terminator.pair().0));
                    assert(c.controls()[2] == c.terminator.pair().1);
                    assert(stop_at(k, x, j));
                    cut_at_ascii(x, j);
                    push_ascii(x.take(j), x[j]);
                    assert(x.take(j).push(x[j]) =~= x.take(j + 1));
                    scan_text(c, beyond(x), x, (j + 1) as nat);
                    let far = scan(c, beyond(x), x, (j + 1) as nat);
                    assert(far.records[g.q] == g.record_at(self.config, j));
                }
            }
            match self.emit_next(buf, fold, Ghost(g), Ghost(j), Ghost(e)) {
                Ok(_) => {},
                Err(err) => {
                    return Err(err);
                },
            }
            self.record_buf_start = rec_end + 1;
            let stop: bool = self.record_buf_start > ctx.remaining_in_chunk;
            let handed: usize = handoff(run_start, ctx.remaining_in_chunk, stop);
            self.last_record_end = Some(ctx.total_consumed + handed);
            if stop {
                // Later records belong to the next chunk.
                return Ok(self.last_record_end);
            }
            proof {
                let g2 = Progress { x, ..self.at(p, consumed, x.len() as int, fold.log()) };
                assert(self.done(g2) == before.done(g) + c.field_count->0) by (nonlinear_arith)
                    requires
                        self.done(g2) == (g.q + 1) * c.field_count->0,
                        before.done(g) == g.q * c.field_count->0,
                ;
            }
        }
        proof {
            let g = Progress { x, ..self.at(p, consumed, x.len() as int, fold.log()) };
            self.lemma_all_out(p, g, fold.log());
        }
        Ok(self.last_record_end)
    }
}

/// Padding leaves the quotes as they are.
proof fn inside_followed(k: ScannerConfig, x: Seq<u8>, tail: Seq<u8>, i: int)
    requires
        forall|j: int| 0 <= j < tail.len() ==> neutral(k, #[trigger] tail[j]),
        x.len() <= i <= x.len() + tail.len(),
    ensures
        inside(k, x + tail, i) == inside(k, x, x.len() as int),
    decreases i,
{
    let y = x + tail;
    if i > x.len() {
        inside_followed(k, x, tail, i - 1);
        assert(y[i - 1] == tail[i - 1 - x.len()]);
    } else {
        inside_same(k, x, y, i);
    }
}

/// No field that starts at `i` is closed by a quote before `i`.
proof fn quote_before_start(c: Config, x: Seq<u8>, i: int)
    requires
        readable(c),
        0 < i <= x.len(),
        quote_at(chars_of(c), x, i - 1),
    ensures
        field_start(chars_of(c), x, i) < i,
{
    readable_bytes(c);
    starts_before(chars_of(c), x, i - 1);
}

/// A list of spots from `w.0` to `w.2`, without those up to `last`: the spots
/// from `w.1` on, if there are none in between.
proof fn passed(
    offs: Seq<usize>,
    from: int,
    to: int,
    by: int,
    test: spec_fn(int) -> bool,
    w: (int, int, int),
    last: int,
)
    requires
        0 <= from <= to <= offs.len(),
        w.0 <= w.1 <= w.2,
        shifted(offs.skip(from), by) == spots(test, w.0, w.2),
        forall|i: int| from <= i < to ==> #[trigger] offs[i] <= last,
        to < offs.len() ==> offs[to] > last,
        last + by < w.1,
        forall|i: int| last + by < i < w.1 ==> !#[trigger] test(i),
    ensures
        shifted(offs.skip(to), by) == spots(test, w.1, w.2),
{
    let s = spots(test, w.0, w.2);
    let left = spots(test, w.0, w.1);
    let right = spots(test, w.1, w.2);
    spots_join(test, w.0, w.1, w.2);
    spots_are(test, w.0, w.1);
    spots_are(test, w.1, w.2);
    assert(shifted(offs.skip(from), by).len() == s.len());
    assert forall|i: int| from <= i < offs.len() implies (#[trigger] offs[i]) + by == s[i
        - from] by {
        assert(shifted(offs.skip(from), by)[i - from] == s[i - from]);
    }
    let cnt = to - from;
    if cnt < left.len() {
        assert(s[cnt] == left[cnt]);
        assert(test(left[cnt]));
        assert(offs[to] + by == s[cnt]);
    }
    if cnt > left.len() {
        assert(offs[to - 1] + by == s[cnt - 1]);
        assert(s[cnt - 1] == right[cnt - 1 - left.len()]);
    }
    assert forall|i: int| 0 <= i < right.len() implies shifted(offs.skip(to), by)[i]
        == right[i] by {
        assert(s[cnt + i] == right[i]);
        assert(offs[to + i] + by == s[cnt + i]);
    }
    assert(shifted(offs.skip(to), by) =~= right);
}

/// What the removals leave of a field in the buffer is what the masks leave of
/// it in the input.
proof fn keep_is_kept(k: ScannerConfig, g: Progress, buf: Seq<u8>, r: Seq<usize>, b: int, e: int)
    requires
        0 <= b <= e <= buf.len(),
        e <= usize::MAX,
        g.rs <= b + g.consumed,
        e + g.consumed <= g.z,
        shifted(r, g.consumed) == spots(|i: int| gone(k, g.x, i), g.rs, g.z),
        forall|i: int| b <= i < e ==> buf[i] == g.x[g.consumed + i],
    ensures
        kept(buf, b, e, r) == keep(k, g.x, b + g.consumed, e + g.consumed),
    decreases e - b,
{
    if b < e {
        keep_is_kept(k, g, buf, r, b, e - 1);
        let test = |i: int| gone(k, g.x, i);
        let s = spots(test, g.rs, g.z);
        spots_are(test, g.rs, g.z);
        let at = e - 1 + g.consumed;
        assert(r.contains((e - 1) as usize) <==> gone(k, g.x, at)) by {
            if r.contains((e - 1) as usize) {
                let i = choose|i: int| 0 <= i < r.len() && r[i] == (e - 1) as usize;
                assert(shifted(r, g.consumed)[i] == at);
                assert(test(s[i]));
            }
            if gone(k, g.x, at) {
                assert(test(at));
                assert(s.contains(at));
                let i = choose|i: int| 0 <= i < s.len() && s[i] == at;
                assert(shifted(r, g.consumed)[i] == at);
                assert(r[i] == e - 1);
            }
        }
    }
}

} // verus!
