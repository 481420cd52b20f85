//! DFA-side of `parse_from`: per-byte state machine + record emission.
//!
//! Plugs into [`crate::parser::driver::ChunkDriver`] via [`ChunkStepper`].
//! The driver owns fill/consume, UTF-8 validation, and offset shifts;
//! this file owns the inner hot loop, write-cursor compaction, field
//! accumulation, and EOF finalization for terminal DFA states.

use vstd::prelude::*;
use vstd::utf8::valid_utf8;

use super::needles::StructuralNeedles;
use super::table::{
    cell, ends_plain, ends_quoted, Dfa, State, ERROR_STATE, FIRST_ACTION, RECORD_END_STATE,
};
use crate::config::Config;
use crate::error::{Error, Position};
use crate::io::monus;
use crate::parser::driver::{exact_report, took_all, turned_down, ChunkStepper, Pass, StepCtx, StepResult};
use crate::parser::fold::{cut, in_turn, presentable, refuses, spans_within, Accumulator, Fold};
use crate::parser::grammar::{
    advance, arity_ok, bounded_scan, is_space, open_record, placed, scan, scan_blank, scan_bounds,
    scan_halted, scan_prefixes_outcome, shaped, trim_end, trim_start, widest_bounds, Halt, Record,
};
use crate::parser::output::Output;
use crate::parser::text::{cut_at_ascii, scan_text, shaped_text};

verus! {

/// Whether `b` is ASCII whitespace.
fn space(b: u8) -> (r: bool)
    ensures
        r == is_space(b),
{
    b == 0x20 || (b >= 0x09 && b <= 0x0D)
}

/// Trimming whitespace one byte after the other from the front.
proof fn trim_start_steps(s: Seq<u8>, k: int)
    requires
        0 <= k <= s.len(),
        forall|i: int| 0 <= i < k ==> is_space(#[trigger] s[i]),
    ensures
        trim_start(s) == trim_start(s.skip(k)),
    decreases k,
{
    if k > 0 {
        trim_start_steps(s, k - 1);
        assert(s.skip(k - 1)[0] == s[k - 1]);
        assert(s.skip(k - 1).skip(1) =~= s.skip(k));
    } else {
        assert(s.skip(0) =~= s);
    }
}

/// Trimming whitespace one byte after the other from the back.
proof fn trim_end_steps(s: Seq<u8>, k: int)
    requires
        0 <= k <= s.len(),
        forall|i: int| k <= i < s.len() ==> is_space(#[trigger] s[i]),
    ensures
        trim_end(s) == trim_end(s.take(k)),
    decreases s.len() - k,
{
    if k < s.len() {
        trim_end_steps(s, k + 1);
        assert(s.take(k + 1).last() == s[k]);
        assert(s.take(k + 1).drop_last() =~= s.take(k));
    } else {
        assert(s.take(k) =~= s);
    }
}

/// The part of `buf[start..end]` without the ASCII whitespace around it, as
/// offset and length.
fn trim_ascii(buf: &[u8], start: usize, end: usize) -> (r: (usize, usize))
    requires
        start <= end <= buf@.len(),
    ensures
        start <= r.0,
        r.0 + r.1 <= end,
        buf@.subrange(r.0 as int, r.0 + r.1) == trim_end(
            trim_start(buf@.subrange(start as int, end as int)),
        ),
{
    let ghost s = buf@.subrange(start as int, end as int);
    let mut a: usize = start;
    while a < end && space(buf[a])
        invariant
            start <= a <= end <= buf@.len(),
            s == buf@.subrange(start as int, end as int),
            forall|i: int| 0 <= i < a - start ==> is_space(#[trigger] s[i]),
        decreases end - a,
    {
        assert(s[a - start] == buf@[a as int]);
        a += 1;
    }
    let ghost t = s.skip(a - start);
    proof {
        trim_start_steps(s, a - start);
        if a < end {
            assert(t[0] == buf@[a as int]);
        }
    }
    let mut b: usize = end;
    while b > a && space(buf[b - 1])
        invariant
            start <= a <= b <= end <= buf@.len(),
            t == buf@.subrange(a as int, end as int),
            forall|i: int| b - a <= i < t.len() ==> is_space(#[trigger] t[i]),
        decreases b - a,
    {
        assert(t[b - 1 - a] == buf@[b - 1]);
        b -= 1;
    }
    proof {
        trim_end_steps(t, b - a);
        assert(buf@.subrange(a as int, b as int) =~= t.take(b - a));
        if b > a {
            assert(t.take(b - a).last() == buf@[b - 1]);
        }
    }
    (a, b - a)
}

/// DFA stepper. Holds all state that must survive between driver iterations.
pub struct DfaStepper<'a> {
    /// Transition table and structural-byte needles for the configured dialect.
    dfa: &'a Dfa,
    /// The dialect.
    config: Config,
    /// Current DFA state, carried across refills so records may span them.
    dfa_state: State,
    /// Buffer offset where the current field started.
    field_start: usize,
    /// In-place compaction write cursor; lags the read pos once escapes are removed.
    write_pos: usize,
    /// Buffer offset of the record in flight; caps what the driver may consume.
    record_buf_start: usize,
    /// Fields of the record in flight, as offset and length in the buffer.
    spans: Vec<(usize, usize)>,
    /// Offset in the chunk of the last completed record's end.
    last_record_end: Option<usize>,
    /// Offset in the chunk of the current record, for error reporting only.
    record_in_start: usize,
    /// The same, for the field in flight.
    field_in_start: usize,
}

/// The spans lie between `from` and `to`.
spec fn spans_between(spans: Seq<(usize, usize)>, from: int, to: int) -> bool {
    &&& in_turn(spans)
    &&& forall|i: int|
        0 <= i < spans.len() ==> from <= (#[trigger] spans[i]).0 && spans[i].0 + spans[i].1 <= to
}

/// What spans cut out of a buffer depends on the bytes under them only.
proof fn cut_same(a: Seq<u8>, b: Seq<u8>, spans: Seq<(usize, usize)>, to: int)
    requires
        spans_between(spans, 0, to),
        to <= a.len(),
        to <= b.len(),
        forall|i: int| 0 <= i < to ==> a[i] == b[i],
    ensures
        cut(a, spans) == cut(b, spans),
{
    assert forall|i: int| 0 <= i < spans.len() implies cut(a, spans)[i] == cut(b, spans)[i] by {
        let (off, len) = spans[i];
        assert(off + len <= to);
        assert(a.subrange(off as int, off + len) =~= b.subrange(off as int, off + len));
    }
    assert(cut(a, spans) =~= cut(b, spans));
}

/// The bytes from `pos` to `r` have been copied to `to`; nothing else has changed.
pub open spec fn copied(before: Seq<u8>, after: Seq<u8>, pos: int, r: int, to: int) -> bool {
    &&& after.len() == before.len()
    &&& forall|i: int|
        to <= i < to + (r - pos) ==> #[trigger] after[i] == before[i + (pos - to)]
    &&& forall|i: int|
        0 <= i < to || to + (r - pos) <= i < before.len() ==> #[trigger] after[i] == before[i]
}

impl<'a> DfaStepper<'a> {
    /// The dialect.
    pub closed spec fn dialect(self) -> Config {
        self.config
    }

    /// The last record-end so far.
    pub closed spec fn ended(self) -> Option<usize> {
        self.last_record_end
    }

    /// How many bytes may leave the buffer when the scan stands at `pos`.
    pub closed spec fn free(self, pos: int) -> int {
        if self.spans@.len() == 0 && self.field_start == self.write_pos {
            pos
        } else {
            self.record_buf_start as int
        }
    }

    /// The stepper stands where the pass stands that has read up to the end of `seen`.
    pub closed spec fn follows(
        self,
        p: Pass,
        consumed: int,
        seen: Seq<u8>,
        log: Seq<Record>,
    ) -> bool {
        let n = (consumed + seen.len()) as nat;
        let s = scan(self.config, p.boundary, p.inp, n);
        &&& self.dfa.speaks(self.config)
        &&& p.wf()
        &&& 0 <= consumed
        &&& n <= p.inp.len()
        &&& s.halt is None
        &&& log == s.records
        &&& self.dfa_state == s.state
        &&& self.record_buf_start <= self.field_start <= self.write_pos <= seen.len()
        &&& s.cur == seen.subrange(self.field_start as int, self.write_pos as int)
        &&& spans_between(self.spans@, self.record_buf_start as int, self.field_start as int)
        &&& s.fields == cut(seen, self.spans@)
        &&& self.last_record_end == placed(s.last_end, p.base)
        &&& s.state != State::RecordStart && s.state != State::InComment ==> self.record_in_start
            == p.base + s.record_at && self.field_in_start == p.base + s.field_at && consumed
            + self.record_buf_start >= s.record_at
        &&& s.state == State::RecordStart || s.state == State::InComment ==> self.field_start
            == self.write_pos
    }

    /// In `RecordStart` the record in flight starts at the byte that comes next.
    spec fn poised(self, p: Pass, consumed: int, pos: int) -> bool {
        self.dfa_state == State::RecordStart ==> self.record_in_start == p.base + consumed + pos
            && self.field_in_start == p.base + consumed + pos && self.record_buf_start == pos
    }

    /// A stepper for a pass that starts at `start_offset` in its chunk.
    pub fn new(dfa: &'a Dfa, config: &Config, start_offset: usize) -> (r: Self)
        requires
            dfa.speaks(*config),
        ensures
            r.dialect() == *config,
            r.ended() is None,
            forall|p: Pass|
                p.wf() && p.base == start_offset ==> #[trigger] r.follows(p, 0, seq![], seq![]),
    {
        let r = Self {
            dfa,
            config: *config,
            dfa_state: State::RecordStart,
            field_start: 0,
            write_pos: 0,
            record_buf_start: 0,
            record_in_start: start_offset,
            field_in_start: start_offset,
            spans: Vec::new(),
            last_record_end: None,
        };
        proof {
            assert forall|p: Pass| p.wf() && p.base == start_offset implies #[trigger] r.follows(
                p,
                0,
                seq![],
                seq![],
            ) by {
                assert(cut(seq![], r.spans@) =~= seq![]);
                assert(Seq::<u8>::empty().subrange(0, 0) =~= seq![]);
            }
        }
        r
    }

    /// One byte that neither ends a field nor a record.
    proof fn lemma_plain_byte(
        self,
        next: Self,
        p: Pass,
        consumed: int,
        seen: Seq<u8>,
        after: Seq<u8>,
        log: Seq<Record>,
    )
        requires
            self.follows(p, consumed, seen, log),
            consumed + seen.len() < p.inp.len(),
            after.len() == seen.len() + 1,
            forall|i: int| 0 <= i < self.write_pos ==> after[i] == seen[i],
            self.poised(p, consumed, seen.len() as int),
            ({
                let b = p.inp[consumed + seen.len()];
                let k = cell(self.config, self.dfa_state, b);
                &&& k.next.number() < 7
                &&& !(self.dfa_state == State::RecordStart && self.config.terminator.ends(b))
                &&& k.output ==> after[self.write_pos as int] == b
                &&& next == Self {
                    dfa_state: k.next,
                    write_pos: if k.output {
                        (self.write_pos + 1) as usize
                    } else {
                        self.write_pos
                    },
                    ..self
                }
            }),
        ensures
            next.follows(p, consumed, after, log),
    {
        let n = (consumed + seen.len()) as nat;
        let b = p.inp[n as int];
        let s = scan(self.config, p.boundary, p.inp, n);
        let t = scan(self.config, p.boundary, p.inp, n + 1);
        let k = cell(self.config, self.dfa_state, b);
        scan_bounds(self.config, p.boundary, p.inp, n);
        assert(t == advance(self.config, p.boundary, s, b, n as int));
        assert(consumed + after.len() == n + 1);
        cut_same(seen, after, self.spans@, self.field_start as int);
        let f = self.field_start as int;
        let w = self.write_pos as int;
        if k.output {
            assert(after.subrange(f, w + 1) =~= seen.subrange(f, w).push(b));
        } else {
            assert(after.subrange(f, w) =~= seen.subrange(f, w));
        }
    }

    /// Push the current field span (`field_start..write_pos`, optionally
    /// trimmed) onto the spans. Caller advances the cursors afterward.
    fn push_field(&mut self, buf: &[u8])
        requires
            old(self).field_start <= old(self).write_pos <= buf@.len(),
            spans_between(
                old(self).spans@,
                old(self).record_buf_start as int,
                old(self).field_start as int,
            ),
            old(self).record_buf_start <= old(self).field_start,
        ensures
            *final(self) == (Self { spans: final(self).spans, ..*old(self) }),
            final(self).spans@.len() == old(self).spans@.len() + 1,
            spans_between(
                final(self).spans@,
                old(self).record_buf_start as int,
                old(self).write_pos as int,
            ),
            cut(buf@, final(self).spans@) == cut(buf@, old(self).spans@).push(
                shaped(
                    old(self).config,
                    buf@.subrange(old(self).field_start as int, old(self).write_pos as int),
                ),
            ),
    {
        let (off, len) = if self.config.trim {
            trim_ascii(buf, self.field_start, self.write_pos)
        } else {
            (self.field_start, self.write_pos - self.field_start)
        };
        let ghost before = self.spans@;
        self.spans.push((off, len));
        proof {
            assert(cut(buf@, self.spans@) =~= cut(buf@, before).push(
                buf@.subrange(off as int, off + len),
            ));
        }
    }

    /// Point every field cursor at `pos`: the next field starts here
    /// and nothing has been written for it yet.
    fn start_field_at(&mut self, total_consumed: usize, pos: usize)
        requires
            total_consumed + pos <= usize::MAX,
        ensures
            *final(self) == (Self {
                field_start: pos,
                field_in_start: (total_consumed + pos) as usize,
                write_pos: pos,
                ..*old(self)
            }),
    {
        self.field_start = pos;
        self.field_in_start = total_consumed + pos;
        self.write_pos = pos;
    }

    /// Scan-and-copy fast path for the two "content" states, where the
    /// DFA self-loops with output on every non-structural
    /// byte. Returns the new read position.
    fn scan_run(
        &mut self,
        buf: &mut [u8],
        pos: usize,
        scan_end: usize,
        needles: &StructuralNeedles,
        Ghost(p): Ghost<Pass>,
        Ghost(consumed): Ghost<int>,
        Ghost(log): Ghost<Seq<Record>>,
    ) -> (r: usize)
        requires
            pos < scan_end <= old(buf)@.len(),
            old(self).follows(p, consumed, old(buf)@.take(pos as int), log),
            consumed + old(buf)@.len() <= p.inp.len(),
            old(buf)@.skip(pos as int) == p.inp.subrange(consumed + pos, consumed + old(buf)@.len()),
            needles.wf(),
            old(self).dfa_state == State::InField && (forall|b: u8| #[trigger]
                needles.has(b) <==> ends_plain(old(self).config, b)) || old(self).dfa_state
                == State::InQuotedField && (forall|b: u8| #[trigger]
                needles.has(b) <==> ends_quoted(old(self).config, b)),
        ensures
            pos <= r <= scan_end,
            final(buf)@.len() == old(buf)@.len(),
            final(buf)@.skip(r as int) == old(buf)@.skip(r as int),
            final(self).follows(p, consumed, final(buf)@.take(r as int), log),
            *final(self) == (Self {
                write_pos: (old(self).write_pos + (r - pos)) as usize,
                ..*old(self)
            }),
            old(self).write_pos + (r - pos) <= r,
            forall|i: int| pos <= i < r ==> !needles.has(#[trigger] old(buf)@[i]),
            r < scan_end ==> needles.has(old(buf)@[r as int]),
            copied(old(buf)@, final(buf)@, pos as int, r as int, old(self).write_pos as int),
    {
        let haystack: &[u8] = vstd::slice::slice_subrange(buf, pos, scan_end);
        let next_pos: usize = match needles.find(haystack) {
            Some(off) => pos + off,
            None => scan_end,
        };
        let ghost whole = buf@;
        proof {
            assert forall|i: int| pos <= i < next_pos implies !needles.has(#[trigger] whole[i]) by {
                assert(haystack@[i - pos] == whole[i]);
            }
            if next_pos < scan_end {
                assert(haystack@[next_pos - pos] == whole[next_pos as int]);
            }
        }
        let mut at: usize = pos;
        while at < next_pos
            invariant
                pos <= at <= next_pos <= scan_end <= whole.len(),
                buf@.len() == whole.len(),
                consumed + whole.len() <= p.inp.len(),
                whole.skip(pos as int) == p.inp.subrange(consumed + pos, consumed + whole.len()),
                buf@.skip(at as int) == whole.skip(at as int),
                self.follows(p, consumed, buf@.take(at as int), log),
                old(self).write_pos + (at - pos) <= at,
                *self == (Self {
                    write_pos: (old(self).write_pos + (at - pos)) as usize,
                    ..*old(self)
                }),
                copied(whole, buf@, pos as int, at as int, old(self).write_pos as int),
                forall|i: int| pos <= i < next_pos ==> !needles.has(#[trigger] whole[i]),
                old(self).dfa_state == State::InField && (forall|b: u8| #[trigger]
                    needles.has(b) <==> ends_plain(old(self).config, b)) || old(self).dfa_state
                    == State::InQuotedField && (forall|b: u8| #[trigger]
                    needles.has(b) <==> ends_quoted(old(self).config, b)),
            decreases next_pos - at,
        {
            let ghost seen = buf@.take(at as int);
            let ghost before = *self;
            let ghost was = buf@;
            let byte: u8 = buf[at];
            proof {
                assert(byte == was.skip(at as int)[0]);
                assert(byte == whole.skip(at as int)[0]);
                assert(byte == whole.skip(pos as int)[at - pos]);
                assert(byte == p.inp[consumed + at]);
                assert(!needles.has(whole[at as int]));
            }
            buf[self.write_pos] = byte;
            self.write_pos = self.write_pos + 1;
            at += 1;
            proof {
                before.lemma_plain_byte(*self, p, consumed, seen, buf@.take(at as int), log);
                assert(buf@.skip(at as int) =~= was.skip(at - 1).skip(1));
                assert(whole.skip(at as int) =~= whole.skip(at - 1).skip(1));
            }
        }
        at
    }

    /// Arity-check the record in flight, then hand it to the fold.
    fn emit_record<S, O: Output + ?Sized, A: Accumulator<S, O>>(
        &mut self,
        buf: &[u8],
        fold: &mut Fold<S, O, A>,
    ) -> (r: Result<(), Error>)
        requires
            old(fold).wf(),
            buf@.len() <= old(fold).bound(),
            spans_within(old(self).spans@, buf@.len() as int),
            in_turn(old(self).spans@),
            presentable::<O>(cut(buf@, old(self).spans@)),
        ensures
            final(fold).acc() == old(fold).acc(),
            final(fold).init() == old(fold).init(),
            final(fold).bound() == old(fold).bound(),
            *final(self) == (Self { spans: final(self).spans, ..*old(self) }),
            match r {
                Ok(_) => {
                    &&& arity_ok(old(self).config, old(self).spans@.len())
                    &&& final(fold).wf()
                    &&& final(fold).log() == old(fold).log().push(cut(buf@, old(self).spans@))
                    &&& final(self).spans@.len() == 0
                },
                Err(e) => {
                    &&& final(fold).log() == old(fold).log()
                    &&& if arity_ok(old(self).config, old(self).spans@.len()) {
                        refuses::<S, O, A>(
                            old(fold).acc(),
                            old(fold).init(),
                            old(fold).log(),
                            cut(buf@, old(self).spans@),
                            e,
                        )
                    } else {
                        &&& final(fold).wf()
                        &&& e == Error::NumberOfFields {
                            expected: old(self).config.field_count->0,
                            found: old(self).spans@.len() as usize,
                            position: Position { byte_offset: old(self).record_in_start },
                        }
                    }
                },
            },
    {
        let found: usize = self.spans.len();
        if let Some(expected) = self.config.field_count {
            if found != expected {
                return Err(
                    Error::NumberOfFields {
                        expected,
                        found,
                        position: Position { byte_offset: self.record_in_start },
                    },
                );
            }
        }
        match fold.emit(buf, self.spans.as_slice()) {
            Ok(_) => {
                self.spans.clear();
                Ok(())
            },
            Err(e) => Err(e),
        }
    }

    /// What the pass holds can be handed out, where the input is text up to here.
    proof fn lemma_presentable<O: Output + ?Sized>(
        self,
        p: Pass,
        consumed: int,
        seen: Seq<u8>,
        log: Seq<Record>,
    )
        requires
            self.follows(p, consumed, seen, log),
            O::textual() ==> self.config.ascii() && valid_utf8(p.inp.take(consumed + seen.len())),
        ensures
            ({
                let s = scan(self.config, p.boundary, p.inp, (consumed + seen.len()) as nat);
                presentable::<O>(s.fields.push(shaped(self.config, s.cur)))
            }),
    {
        let n = (consumed + seen.len()) as nat;
        let s = scan(self.config, p.boundary, p.inp, n);
        if O::textual() {
            scan_text(self.config, p.boundary, p.inp, n);
            shaped_text(self.config, s.cur);
        }
    }

    /// Close out the field the action state `s` landed on, and — for
    /// `RECORD_END_STATE` — the record with it. `pos` is one past the
    /// byte that triggered the action.
    ///
    /// `Some` ends the chunk: a parse error, or a record that closed on
    /// the chunk boundary.
    fn apply_action<S, O: Output + ?Sized, A: Accumulator<S, O>>(
        &mut self,
        s: u8,
        buf: &[u8],
        pos: usize,
        remaining_in_chunk: usize,
        total_consumed: usize,
        fold: &mut Fold<S, O, A>,
        Ghost(p): Ghost<Pass>,
    ) -> (r: Option<StepResult>)
        requires
            0 < pos <= buf@.len(),
            p.base <= total_consumed,
            total_consumed - p.base + buf@.len() <= p.inp.len(),
            remaining_in_chunk == monus(p.boundary, total_consumed - p.base),
            old(fold).wf(),
            buf@.len() <= old(fold).bound(),
            old(self).follows(
                p,
                total_consumed - p.base,
                buf@.take(pos - 1),
                old(fold).log(),
            ),
            old(self).poised(p, total_consumed - p.base, pos - 1),
            s >= 7,
            s == cell(
                old(self).config,
                old(self).dfa_state,
                p.inp[total_consumed - p.base + pos - 1],
            ).next.number(),
            O::textual() ==> old(self).config.ascii(),
            O::textual() && s != ERROR_STATE ==> valid_utf8(
                p.inp.take(total_consumed - p.base + pos - 1),
            ),
        ensures
            final(self).config == old(self).config,
            final(fold).acc() == old(fold).acc(),
            final(fold).init() == old(fold).init(),
            final(fold).bound() == old(fold).bound(),
            match r {
                None => {
                    &&& final(fold).wf()
                    &&& final(self).follows(
                        p,
                        total_consumed - p.base,
                        buf@.take(pos as int),
                        final(fold).log(),
                    )
                },
                Some(StepResult::Done(e)) => {
                    let m = p.meaning(old(self).config);
                    &&& final(fold).wf()
                    &&& final(fold).log() == m.records
                    &&& m.end == Ok::<Option<int>, crate::parser::grammar::Failure>(Some(e - p.base))
                    &&& e == total_consumed + pos - 1 && pos - 1 >= remaining_in_chunk
                },
                Some(StepResult::Error(e)) => {
                    ||| exact_report(old(self).config, p, e) && took_all(
                        *final(fold),
                        p.meaning(old(self).config).records,
                    )
                    ||| turned_down(*final(fold), p.meaning(old(self).config).records, e)
                },
                Some(StepResult::Suspended { .. }) => false,
            },
    {
        let ghost c = self.config;
        let ghost consumed = total_consumed - p.base;
        let ghost n = (consumed + pos - 1) as nat;
        let ghost b = p.inp[n as int];
        let ghost st = scan(c, p.boundary, p.inp, n);
        let ghost nx = scan(c, p.boundary, p.inp, n + 1);
        let ghost seen = buf@.take(pos - 1);
        let ghost log = fold.log();
        proof {
            scan_bounds(c, p.boundary, p.inp, n);
            scan_bounds(c, p.boundary, p.inp, n + 1);
            assert(nx == advance(c, p.boundary, st, b, n as int));
            if nx.halt is Some {
                scan_halted(c, p.boundary, p.inp, n + 1, p.inp.len());
            }
            if s != ERROR_STATE {
                self.lemma_presentable::<O>(p, consumed, seen, log);
            }
            assert(seen.subrange(self.field_start as int, self.write_pos as int) =~= buf@.subrange(
                self.field_start as int,
                self.write_pos as int,
            ));
            cut_same(seen, buf@, self.spans@, self.field_start as int);
        }
        if s == ERROR_STATE {
            return Some(
                StepResult::Error(
                    Error::InvalidQuote {
                        position: Position {
                            byte_offset: if self.dfa_state == State::AfterClosingQuote {
                                // the closing quote, not what follows it
                                total_consumed + pos - 2
                            } else {
                                total_consumed + pos - 1
                            },
                        },
                    },
                ),
            );
        }
        self.push_field(buf);
        self.start_field_at(total_consumed, pos);
        if s != RECORD_END_STATE {
            // FieldEnd — next field.
            self.dfa_state = State::FieldStart;
            proof {
                let after = buf@.take(pos as int);
                assert(consumed + after.len() == n + 1);
                cut_same(buf@, after, self.spans@, pos - 1);
                assert(after.subrange(pos as int, pos as int) =~= seq![]);
            }
            return None;
        }
        proof {
            assert(spans_within(self.spans@, buf@.len() as int));
            scan_prefixes_outcome(c, p.boundary, p.inp, n + 1);
        }
        let ghost record = cut(buf@, self.spans@);
        if let Err(e) = self.emit_record(buf, fold) {
            proof {
                let all = p.meaning(c).records;
                if arity_ok(c, record.len()) {
                    assert(nx.records == log.push(record));
                    assert(all.take(nx.records.len() as int)[log.len() as int] == record);
                    assert(all.take(log.len() as int) =~= nx.records.take(log.len() as int));
                    assert(nx.records.take(log.len() as int) =~= log);
                    assert(turned_down(*fold, all, e));
                } else {
                    assert(exact_report(c, p, e));
                }
            }
            return Some(StepResult::Error(e));
        }
        let anchor: usize = pos - 1;
        let end: usize = total_consumed + anchor;
        self.last_record_end = Some(end);
        self.record_buf_start = pos;
        self.start_field_at(total_consumed, pos);
        self.dfa_state = State::RecordStart;
        // The byte `find_record_start` stops on from the other side.
        if anchor >= remaining_in_chunk {
            return Some(StepResult::Done(end));
        }
        proof {
            let after = buf@.take(pos as int);
            assert(consumed + after.len() == n + 1);
            assert(cut(after, self.spans@) =~= seq![]);
            assert(after.subrange(pos as int, pos as int) =~= seq![]);
        }
        None
    }

    /// Skip the run of terminators at `pos`, where a record would start. The
    /// new position; and the end of the pass, if the run reaches the boundary.
    fn skip_blank(
        &mut self,
        buf: &[u8],
        pos: usize,
        ctx: &StepCtx,
        Ghost(p): Ghost<Pass>,
        Ghost(log): Ghost<Seq<Record>>,
    ) -> (r: (usize, Option<usize>))
        requires
            p.wf(),
            p.base <= ctx.total_consumed,
            pos <= ctx.scan_end <= buf@.len(),
            ctx.total_consumed - p.base + buf@.len() <= p.inp.len(),
            ctx.remaining_in_chunk == monus(p.boundary, ctx.total_consumed - p.base),
            buf@.skip(pos as int) == p.inp.subrange(
                ctx.total_consumed - p.base + pos,
                ctx.total_consumed - p.base + buf@.len(),
            ),
            old(self).dfa_state == State::RecordStart,
            old(self).follows(p, ctx.total_consumed - p.base, buf@.take(pos as int), log),
        ensures
            final(self).config == old(self).config,
            match r.1 {
                Some(end) => {
                    let m = p.meaning(old(self).config);
                    &&& log == m.records
                    &&& m.end == Ok::<Option<int>, crate::parser::grammar::Failure>(Some(end - p.base))
                    &&& ctx.remaining_in_chunk <= end - ctx.total_consumed < ctx.scan_end
                },
                None => {
                    &&& pos <= r.0 <= ctx.scan_end
                    &&& final(self).follows(
                        p,
                        ctx.total_consumed - p.base,
                        buf@.take(r.0 as int),
                        log,
                    )
                    &&& final(self).poised(p, ctx.total_consumed - p.base, r.0 as int)
                    &&& r.0 < ctx.scan_end ==> !final(self).config.terminator.ends(
                        p.inp[ctx.total_consumed - p.base + r.0],
                    )
                },
            },
    {
        let ghost c = self.config;
        let ghost consumed = ctx.total_consumed - p.base;
        let dfa = self.dfa;
        let mask = dfa.record_start_structural();
        let run_start: usize = pos;
        let mut pos: usize = pos;
        proof {
            assert forall|i: int| run_start <= i < buf@.len() implies #[trigger] buf@[i]
                == p.inp[consumed + i] by {
                assert(buf@[i] == buf@.skip(run_start as int)[i - run_start]);
            }
        }
        while pos < ctx.scan_end && !mask[buf[pos] as usize]
            invariant
                run_start <= pos <= ctx.scan_end <= buf@.len(),
                forall|i: int| run_start <= i < buf@.len() ==> #[trigger] buf@[i] == p.inp[consumed + i],
                mask == &dfa.record_start_structural,
                dfa.speaks(c),
                forall|i: int| run_start <= i < pos ==> c.terminator.ends(#[trigger] buf@[i]),
            decreases ctx.scan_end - pos,
        {
            pos += 1;
        }
        let anchor: usize = if ctx.remaining_in_chunk > run_start {
            ctx.remaining_in_chunk
        } else {
            run_start
        };
        let ghost n0 = (consumed + run_start) as nat;
        proof {
            assert(buf@.take(run_start as int).len() == run_start);
            scan_bounds(c, p.boundary, p.inp, n0);
            assert forall|i: int| n0 <= i < consumed + pos implies c.terminator.ends(
                #[trigger] p.inp[i],
            ) by {
                assert(c.terminator.ends(buf@[i - consumed]));
            }
        }
        if anchor < pos {
            let end: usize = ctx.total_consumed + anchor;
            self.last_record_end = Some(end);
            proof {
                let k = (consumed + anchor) as nat;
                scan_blank(c, p.boundary, p.inp, n0, k);
                assert(c.terminator.ends(p.inp[k as int]));
                let t = scan(c, p.boundary, p.inp, k + 1);
                assert(t == advance(
                    c,
                    p.boundary,
                    scan(c, p.boundary, p.inp, k),
                    p.inp[k as int],
                    k as int,
                ));
                assert(t.halt == Some(Halt::Done(k as int)));
                scan_halted(c, p.boundary, p.inp, k + 1, p.inp.len());
            }
            return (pos, Some(end));
        }
        proof {
            let k = (consumed + pos) as nat;
            scan_blank(c, p.boundary, p.inp, n0, k);
            scan_bounds(c, p.boundary, p.inp, k);
            let seen = buf@.take(pos as int);
            assert(scan(c, p.boundary, p.inp, k).cur =~= seq![]);
            assert(scan(c, p.boundary, p.inp, k).fields =~= seq![]);
            assert(self.spans@.len() == 0) by {
                assert(cut(buf@.take(run_start as int), self.spans@).len() == 0);
            }
            assert(cut(seen, self.spans@) =~= seq![]);
            assert(seen.subrange(pos as int, pos as int) =~= seq![]);
            if pos < ctx.scan_end {
                assert(buf@[pos as int] == p.inp[consumed + pos]);
            }
        }
        // What came before the record needs no room.
        self.record_in_start = ctx.total_consumed + pos;
        self.record_buf_start = pos;
        self.start_field_at(ctx.total_consumed, pos);
        (pos, None)
    }

    /// The main DFA step: one byte through the table.
    fn take_byte<S, O: Output + ?Sized, A: Accumulator<S, O>>(
        &mut self,
        buf: &mut [u8],
        pos: usize,
        ctx: &StepCtx,
        fold: &mut Fold<S, O, A>,
        Ghost(p): Ghost<Pass>,
    ) -> (r: Option<StepResult>)
        requires
            p.wf(),
            p.base <= ctx.total_consumed,
            pos < ctx.scan_end <= old(buf)@.len(),
            ctx.total_consumed - p.base + old(buf)@.len() <= p.inp.len(),
            ctx.remaining_in_chunk == monus(p.boundary, ctx.total_consumed - p.base),
            old(buf)@.skip(pos as int) == p.inp.subrange(
                ctx.total_consumed - p.base + pos,
                ctx.total_consumed - p.base + old(buf)@.len(),
            ),
            old(fold).wf(),
            old(buf)@.len() <= old(fold).bound(),
            old(self).follows(
                p,
                ctx.total_consumed - p.base,
                old(buf)@.take(pos as int),
                old(fold).log(),
            ),
            old(self).poised(p, ctx.total_consumed - p.base, pos as int),
            old(self).dfa_state == State::RecordStart ==> !old(self).config.terminator.ends(
                p.inp[ctx.total_consumed - p.base + pos],
            ),
            O::textual() ==> old(self).config.ascii() && valid_utf8(
                p.inp.take(ctx.total_consumed - p.base + ctx.scan_end),
            ),
        ensures
            final(self).config == old(self).config,
            final(fold).acc() == old(fold).acc(),
            final(fold).init() == old(fold).init(),
            final(fold).bound() == old(fold).bound(),
            final(buf)@.len() == old(buf)@.len(),
            match r {
                None => {
                    &&& final(fold).wf()
                    &&& final(buf)@.skip(pos + 1) == old(buf)@.skip(pos + 1)
                    &&& final(self).follows(
                        p,
                        ctx.total_consumed - p.base,
                        final(buf)@.take(pos + 1),
                        final(fold).log(),
                    )
                },
                Some(StepResult::Done(e)) => {
                    let m = p.meaning(old(self).config);
                    &&& final(fold).wf()
                    &&& final(fold).log() == m.records
                    &&& m.end == Ok::<Option<int>, crate::parser::grammar::Failure>(Some(e - p.base))
                    &&& ctx.remaining_in_chunk <= e - ctx.total_consumed < ctx.scan_end
                },
                Some(StepResult::Error(e)) => {
                    ||| exact_report(old(self).config, p, e) && took_all(
                        *final(fold),
                        p.meaning(old(self).config).records,
                    )
                    ||| turned_down(*final(fold), p.meaning(old(self).config).records, e)
                },
                Some(StepResult::Suspended { .. }) => false,
            },
    {
        let ghost c = self.config;
        let ghost consumed = ctx.total_consumed - p.base;
        let byte: u8 = buf[pos];
        let ghost before = *self;
        let ghost seen = buf@.take(pos as int);
        let ghost mid = buf@;
        proof {
            assert(byte == mid.skip(pos as int)[0]);
            assert(byte == p.inp[consumed + pos]);
            scan_bounds(c, p.boundary, p.inp, (consumed + pos) as nat);
        }
        let trans = self.dfa.transition(self.dfa_state, byte);
        if trans.has_output() {
            buf[self.write_pos] = byte;
            self.write_pos = self.write_pos + 1;
        }
        // Action states are never stored: `apply_action` installs the
        // interior state that follows, and the error path returns.
        let s: u8 = trans.next_raw();
        if s < FIRST_ACTION {
            self.dfa_state = trans.next_state();
            proof {
                before.lemma_plain_byte(*self, p, consumed, seen, buf@.take(pos + 1), fold.log());
                assert(buf@.skip(pos + 1) =~= mid.skip(pos + 1));
            }
            return None;
        }
        proof {
            assert(*self == before);
            assert(buf@ == mid);
            if O::textual() {
                let whole = p.inp.take(consumed + ctx.scan_end);
                let at = consumed + pos;
                let k = cell(c, before.dfa_state, byte);
                assert(c.controls()[0] == Some(c.delimiter));
                assert(c.controls()[1] == Some(c.terminator.pair().0));
                assert(c.controls()[2] == c.terminator.pair().1);
                assert(c.controls()[3] == c.quote);
                if byte < 0x80 {
                    cut_at_ascii(whole, at);
                    assert(whole.take(at) =~= p.inp.take(at));
                }
            }
        }
        self.apply_action(
            s,
            buf,
            pos + 1,
            ctx.remaining_in_chunk,
            ctx.total_consumed,
            fold,
            Ghost(p),
        )
    }
}

/// A context that fits at the start of the scan fits further on.
proof fn fits_later(ctx: StepCtx, p: Pass, buf: Seq<u8>, c: Config, textual: bool, pos: int)
    requires
        ctx.fits(p, buf, c, textual),
        ctx.scan_start <= pos <= ctx.scan_end,
    ensures
        buf.skip(pos) == p.inp.subrange(
            ctx.total_consumed - p.base + pos,
            ctx.total_consumed - p.base + buf.len(),
        ),
{
    let consumed = ctx.total_consumed - p.base;
    assert(buf.skip(pos) =~= buf.skip(ctx.scan_start as int).skip(pos - ctx.scan_start));
    assert(p.inp.subrange(consumed + pos, consumed + buf.len()) =~= p.inp.subrange(
        consumed + ctx.scan_start,
        consumed + buf.len(),
    ).skip(pos - ctx.scan_start));
}

impl<'a, O: Output + ?Sized> ChunkStepper<O> for DfaStepper<'a> {
    open spec fn config(&self) -> Config {
        self.dialect()
    }

    open spec fn tracks(&self, p: Pass, consumed: int, seen: Seq<u8>, log: Seq<Record>) -> bool {
        self.follows(p, consumed, seen, log)
    }

    open spec fn spare(&self, pos: int) -> int {
        self.free(pos)
    }

    open spec fn last_end(&self) -> Option<usize> {
        self.ended()
    }

    open spec fn lag() -> nat {
        0
    }

    open spec fn exact() -> bool {
        true
    }

    fn step<S, A: Accumulator<S, O>>(
        &mut self,
        buf: &mut [u8],
        ctx: StepCtx,
        fold: &mut Fold<S, O, A>,
    ) -> (r: StepResult) {
        let ghost p = ctx.pass@;
        let scan_end: usize = ctx.scan_end;
        let mut pos: usize = ctx.scan_start;
        let ghost consumed = ctx.total_consumed - p.base;
        let ghost c = self.config;
        let ghost first = buf@;
        while pos < scan_end
            invariant
                ctx.scan_start <= pos <= scan_end == ctx.scan_end,
                ctx.fits(p, first, c, O::textual()),
                buf@.len() == first.len(),
                consumed == ctx.total_consumed - p.base,
                self.config == c,
                fold.wf(),
                fold.acc() == old(fold).acc(),
                fold.init() == old(fold).init(),
                fold.bound() == old(fold).bound(),
                buf@.len() <= fold.bound(),
                buf@.skip(pos as int) == first.skip(pos as int),
                self.follows(p, consumed, buf@.take(pos as int), fold.log()),
                first == old(buf)@,
                c == old(self).dialect(),
                p == ctx.pass@,
            decreases scan_end - pos,
        {
            let dfa = self.dfa;
            let ghost entry = pos as int;
            proof {
                fits_later(ctx, p, first, c, O::textual(), entry);
            }
            match self.dfa_state {
                State::InField => {
                    pos = self.scan_run(
                        buf,
                        pos,
                        scan_end,
                        dfa.in_field_needles(),
                        Ghost(p),
                        Ghost(consumed),
                        Ghost(fold.log()),
                    );
                },
                State::InQuotedField => {
                    pos = self.scan_run(
                        buf,
                        pos,
                        scan_end,
                        dfa.in_quoted_needles(),
                        Ghost(p),
                        Ghost(consumed),
                        Ghost(fold.log()),
                    );
                },
                // Skip empty-line terminators without going through the table
                State::RecordStart => {
                    let (next, done) = self.skip_blank(buf, pos, &ctx, Ghost(p), Ghost(fold.log()));
                    if let Some(end) = done {
                        return StepResult::Done(end);
                    }
                    pos = next;
                },
                _ => {},
            }
            proof {
                assert(buf@.skip(pos as int) == first.skip(pos as int)) by {
                    assert(first.skip(pos as int) =~= first.skip(entry).skip(pos - entry));
                }
                fits_later(ctx, p, first, c, O::textual(), pos as int);
            }
            // Only the arms above can land on `scan_end`; for the rest the
            // loop condition already rules it out.
            if pos < scan_end {
                let ghost mid = buf@;
                let stopped = self.take_byte(buf, pos, &ctx, fold, Ghost(p));
                pos += 1;
                if let Some(result) = stopped {
                    return result;
                }
                proof {
                    assert(mid.skip(pos as int) =~= mid.skip(pos - 1).skip(1));
                    assert(first.skip(pos as int) =~= first.skip(pos - 1).skip(1));
                }
            }
        }
        let consumable: usize = if self.spans.len() == 0 && self.field_start == self.write_pos {
            pos
        } else {
            self.record_buf_start
        };
        proof {
            let n = (consumed + pos) as nat;
            assert(buf@.take(pos as int).len() == pos);
            scan_bounds(c, p.boundary, p.inp, n);
            bounded_scan(c, p.boundary, p.inp, n);
            widest_bounds(c, false, p.inp, n, p.inp.len());
            if consumable < pos {
                let s = scan(c, p.boundary, p.inp, n);
                assert(cut(buf@.take(pos as int), self.spans@).len() == self.spans@.len());
                assert(s.cur.len() == self.write_pos - self.field_start);
                open_record(c, false, p.inp, n);
            }
        }
        StepResult::Suspended {
            resume_at: pos,
            consumable,
            last_record_end: self.last_record_end,
        }
    }

    fn consume(
        &mut self,
        n: usize,
        Ghost(p): Ghost<Pass>,
        Ghost(consumed): Ghost<int>,
        Ghost(seen): Ghost<Seq<u8>>,
        Ghost(log): Ghost<Seq<Record>>,
    ) {
        let ghost before = *self;
        self.field_start = self.field_start.saturating_sub(n);
        self.write_pos = self.write_pos.saturating_sub(n);
        self.record_buf_start = self.record_buf_start.saturating_sub(n);
        let ghost mid = *self;
        let ghost kept = seen.skip(n as int);
        let mut i: usize = 0;
        while i < self.spans.len()
            invariant
                before.follows(p, consumed, seen, log),
                n == before.free(seen.len() as int),
                *self == (Self { spans: self.spans, ..mid }),
                i <= self.spans@.len() == before.spans@.len(),
                forall|j: int|
                    0 <= j < i ==> #[trigger] self.spans@[j] == (
                        (before.spans@[j].0 - n) as usize,
                        before.spans@[j].1,
                    ),
                forall|j: int| i <= j < self.spans@.len() ==> #[trigger] self.spans@[j] == before.spans@[j],
            decreases self.spans@.len() - i,
        {
            let (off, len) = self.spans[i];
            assert(before.spans@[i as int].0 >= n);
            self.spans.set(i, (off.saturating_sub(n), len));
            i += 1;
        }
        proof {
            assert(consumed + n + kept.len() == consumed + seen.len());
            assert forall|j: int| 0 <= j < self.spans@.len() implies cut(kept, self.spans@)[j] == cut(
                seen,
                before.spans@,
            )[j] by {
                let (off, len) = before.spans@[j];
                assert(off >= n);
                assert(kept.subrange(off - n, off - n + len) =~= seen.subrange(off as int, off + len));
            }
            assert(cut(kept, self.spans@) =~= cut(seen, before.spans@));
            assert(kept.subrange(self.field_start as int, self.write_pos as int)
                =~= seen.subrange(before.field_start as int, before.write_pos as int));
            assert forall|j: int| 0 <= j < self.spans@.len() implies self.record_buf_start <= (
            #[trigger] self.spans@[j]).0 && self.spans@[j].0 + self.spans@[j].1 <= self.field_start by {
                assert(before.spans@[j].0 >= before.record_buf_start);
            }
        }
    }

    fn finalize<S, A: Accumulator<S, O>>(
        &mut self,
        buf: &mut [u8],
        ctx: StepCtx,
        fold: &mut Fold<S, O, A>,
    ) -> (r: Result<Option<usize>, Error>) {
        let ghost p = ctx.pass@;
        let ghost c = self.config;
        let ghost consumed = ctx.total_consumed - p.base;
        let ghost n = p.inp.len();
        let ghost s = scan(c, p.boundary, p.inp, n);
        let ghost log = fold.log();
        proof {
            scan_bounds(c, p.boundary, p.inp, n);
            assert(buf@.take(ctx.scan_start as int) =~= buf@);
            assert(p.inp.take(consumed + ctx.scan_end) =~= p.inp);
            self.lemma_presentable::<O>(p, consumed, buf@, log);
        }
        match self.dfa_state {
            State::RecordStart | State::InComment => Ok(None),
            // Not `field_start`: a write cursor, so it lags a skipped run
            State::InQuotedField | State::InEscapedQuote => Err(
                Error::UnclosedQuote { position: Position { byte_offset: self.field_in_start } },
            ),
            _ => {
                self.push_field(buf);
                let ghost record = cut(buf@, self.spans@);
                match self.emit_record(buf, fold) {
                    Ok(_) => Ok(Some(ctx.total_consumed + ctx.scan_end)),
                    Err(e) => {
                        proof {
                            let all = p.meaning(c).records;
                            if arity_ok(c, record.len()) {
                                assert(all == log.push(record));
                                assert(all.take(log.len() as int) =~= log);
                                assert(turned_down(*fold, all, e));
                            } else {
                                assert(exact_report(c, p, e));
                            }
                        }
                        Err(e)
                    },
                }
            },
        }
    }
}

} // verus!
