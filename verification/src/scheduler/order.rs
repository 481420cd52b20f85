//! Chunks parsed apart and merged give what one pass over the input gives.

use vstd::prelude::*;
use vstd::utf8::valid_utf8;

use super::merge::{
    chunk_limit, merges, none_picked, passed_over, picked, resumes_at, ChunkOutput,
};
use super::{chunk_stop, pass_at, pass_meets, passes_meet, redone, Task};
use crate::config::Config;
use crate::error::Error;
use crate::io::Access;
use crate::parser::chunk::{body_returns, some_refused, taken, PassResult};
use crate::parser::dfa::table::State;
use crate::parser::driver::{needs, not_text, read_to, reported, starts, Pass};
use crate::parser::fold::{content, fits_in, folds, refuses, Accumulator};
use crate::parser::grammar::{
    beyond, bounded_scan, failure_shift, outcome, outcome_bounds, outcome_restart, scan, scan_blank, scan_bounds,
    scan_ends, scan_restart, scan_running, widest_behind, widest_bounds,
    Failure, Halt, Record,
};
use crate::parser::output::Output;
use crate::parser::text::{cut_at_ascii, cut_text, extend_text, longest_text_shift};

verus! {

/// The last end is where the last record was completed.
proof fn last_end_is_reached(c: Config, inp: Seq<u8>, n: nat)
    requires
        n <= inp.len(),
        scan(c, beyond(inp), inp, n).halt is None,
    ensures
        ({
            let s = scan(c, beyond(inp), inp, n);
            s.last_end matches Some(y) ==> {
                let t = scan(c, beyond(inp), inp, (y + 1) as nat);
                &&& 0 <= y < n
                &&& c.terminator.ends(inp[y])
                &&& t.halt is None
                &&& t.state == State::RecordStart
                &&& t.records == s.records
            }
        }),
        scan(c, beyond(inp), inp, n).last_end is None ==> scan(
            c,
            beyond(inp),
            inp,
            n,
        ).records.len() == 0,
    decreases n,
{
    if n > 0 {
        scan_running(c, beyond(inp), inp, (n - 1) as nat, n);
        last_end_is_reached(c, inp, (n - 1) as nat);
        scan_bounds(c, beyond(inp), inp, (n - 1) as nat);
    }
}

/// The one pass over the input, from the record boundary at `r0` on.
pub open spec fn one_pass<A, I>(t: Task<A, I>, r0: int) -> Pass {
    pass_at(t.data, r0, t.data.len() as int + 1)
}

/// The one pass has come to offset `e`, between two records or to the end of
/// the input, and `records` are the records so far.
pub open spec fn reached<A, I>(t: Task<A, I>, r0: int, e: int, records: Seq<Record>) -> bool {
    let inp = t.data.skip(r0);
    &&& 0 <= r0 <= e <= t.data.len()
    &&& e < t.data.len() ==> {
        let s = scan(t.config, beyond(inp), inp, (e + 1 - r0) as nat);
        &&& s.halt is None
        &&& s.state == State::RecordStart
        &&& s.records == records
        &&& t.config.terminator.ends(t.data[e])
    }
    &&& e == t.data.len() ==> {
        let m = outcome(t.config, beyond(inp), inp);
        m.end is Ok && m.records == records
    }
}

/// The one pass from `r0` on comes to offset `e`, which is its start or lies between
/// two records or is the end of the input, with the records `before`.
pub open spec fn comes_to<A, I>(t: Task<A, I>, r0: int, e: int, before: Seq<Record>) -> bool {
    ||| e == r0 && before.len() == 0 && 0 <= r0 <= t.data.len()
    ||| reached(t, r0, e, before)
}

/// A pass on its own from where the one pass has come to, or from its start:
/// what it adds to the one pass.
proof fn pass_adds<A, I>(t: Task<A, I>, r0: int, e: int, before: Seq<Record>, end: int)
    requires
        comes_to(t, r0, e, before),
        e <= end,
    ensures
        ({
            let m = pass_at(t.data, e, end).meaning(t.config);
            let whole = one_pass(t, r0).meaning(t.config);
            &&& match m.end {
                Ok(Some(x)) => reached(t, r0, e + x, before + m.records),
                Ok(None) => whole.end is Ok && whole.records == before + m.records,
                Err(f) => whole.end == Err::<Option<int>, Failure>(failure_shift(f, e - r0))
                    && whole.records == before + m.records,
            }
            &&& starts(before + m.records, whole.records)
            &&& end >= t.data.len() && m.end is Ok ==> whole.end is Ok && whole.records == before
                + m.records
        }),
{
    let c = t.config;
    let inp0 = t.data.skip(r0);
    let inp = t.data.skip(e);
    let whole = outcome(c, beyond(inp0), inp0);
    let m = outcome(c, end - e, inp);
    let n = inp.len();
    if e == t.data.len() {
        assert(inp =~= seq![]);
        assert(before + m.records =~= before);
        assert(whole.records.take(before.len() as int) =~= before);
        if e == r0 {
            assert(inp0 =~= seq![]);
            assert(before =~= seq![]);
        }
    } else {
        // the pass without a boundary, from `e` on
        pass_restarts(t, r0, e, before);
        let free = outcome(c, beyond(inp), inp);
        bounded_scan(c, end - e, inp, n);
        let b = scan(c, end - e, inp, n);
        let u = scan(c, beyond(inp), inp, n);
        scan_bounds(c, end - e, inp, n);
        match b.halt {
            Some(Halt::Done(x)) => {
                let k = (x + 1) as nat;
                crate::parser::grammar::scan_prefixes_outcome(c, beyond(inp), inp, k);
                assert(m.records == scan(c, beyond(inp), inp, k).records);
                pass_goes_on(t, r0, e, before, k);
                assert(t.data[e + x] == inp[x]);
                assert(whole.records.take((before + m.records).len() as int) =~= before
                    + free.records.take(m.records.len() as int));
            },
            Some(Halt::Failed(f)) => {
                assert(m == free);
                assert(whole.records.take((before + m.records).len() as int) =~= before + m.records);
            },
            None => {
                assert(m == free);
                assert(whole.records.take((before + m.records).len() as int) =~= before + m.records);
                last_end_is_reached(c, inp, n);
                if let Ok(Some(x)) = m.end {
                    if x < n {
                        pass_goes_on(t, r0, e, before, (x + 1) as nat);
                        assert(t.data[e + x] == inp[x]);
                    }
                }
            },
        }
        if end >= t.data.len() {
            if let Some(Halt::Done(x)) = b.halt {
                assert(x >= end - e);
                assert(false);
            }
        }
    }
}

/// Restarted where it has come to, the one pass comes to the same.
proof fn pass_restarts<A, I>(t: Task<A, I>, r0: int, e: int, before: Seq<Record>)
    requires
        comes_to(t, r0, e, before),
        e < t.data.len(),
    ensures
        ({
            let inp = t.data.skip(e);
            let free = outcome(t.config, beyond(inp), inp);
            let whole = one_pass(t, r0).meaning(t.config);
            &&& whole.records == before + free.records
            &&& whole.end is Ok <==> free.end is Ok
            &&& free.end matches Ok(Some(x)) ==> whole.end == Ok::<Option<int>, Failure>(
                Some(x + e - r0),
            )
            &&& free.end == Ok::<Option<int>, Failure>(None) ==> (whole.end matches Ok(Some(y))
                ==> y <= e - r0)
            &&& free.end == Ok::<Option<int>, Failure>(None) && before.len() == 0 && e == r0
                ==> whole.end == Ok::<Option<int>, Failure>(None)
            &&& free.end matches Err(f) ==> whole.end == Err::<Option<int>, Failure>(
                failure_shift(f, e - r0),
            )
        }),
{
    let c = t.config;
    let inp0 = t.data.skip(r0);
    let inp = t.data.skip(e);
    if e == r0 && before.len() == 0 {
        assert(before + outcome(c, beyond(inp), inp).records =~= outcome(c, beyond(inp), inp).records);
        if let Err(f) = outcome(c, beyond(inp), inp).end {
            assert(failure_shift(f, 0) == f);
        }
    } else {
        let k = (e + 1 - r0) as nat;
        outcome_restart(c, beyond(inp0), inp0, k);
        scan_bounds(c, beyond(inp0), inp0, k);
        let rest = t.data.skip(e + 1);
        assert(inp0.skip(k as int) =~= rest);
        // the same, with the terminator at `e` in front
        assert(inp[0] == t.data[e]);
        scan_blank(c, beyond(inp), inp, 0, 1);
        outcome_restart(c, beyond(inp), inp, 1);
        assert(inp.skip(1) =~= rest);
        let after = outcome(c, beyond(rest), rest);
        let first = scan(c, beyond(inp), inp, 1);
        assert(first.records + after.records =~= after.records);
    }
}

/// Where a pass of its own comes to between records, the one pass comes to as well.
proof fn pass_goes_on<A, I>(t: Task<A, I>, r0: int, e: int, before: Seq<Record>, k: nat)
    requires
        comes_to(t, r0, e, before),
        e < t.data.len(),
        0 < k,
        e + k <= t.data.len(),
        ({
            let s = scan(t.config, beyond(t.data.skip(e)), t.data.skip(e), k);
            s.halt is None && s.state == State::RecordStart
        }),
    ensures
        ({
            let own = scan(t.config, beyond(t.data.skip(e)), t.data.skip(e), k);
            let s = scan(t.config, beyond(t.data.skip(r0)), t.data.skip(r0), (e + k - r0) as nat);
            &&& s.halt is None
            &&& s.state == State::RecordStart
            &&& s.records == before + own.records
        }),
{
    let c = t.config;
    let inp0 = t.data.skip(r0);
    let inp = t.data.skip(e);
    let own = scan(c, beyond(inp), inp, k);
    if e == r0 && before.len() == 0 {
        assert(before + own.records =~= own.records);
    } else {
        let n = (e + 1 - r0) as nat;
        let rest = t.data.skip(e + 1);
        assert(inp0.skip(n as int) =~= rest);
        assert(inp[0] == t.data[e]);
        scan_blank(c, beyond(inp), inp, 0, 1);
        assert(inp.skip(1) =~= rest);
        scan_restart(c, beyond(inp), inp, 1, (k - 1) as nat);
        scan_restart(c, beyond(inp0), inp0, n, (k - 1) as nat);
        let first = scan(c, beyond(inp), inp, 1);
        let after = scan(c, beyond(rest), rest, (k - 1) as nat);
        assert(first.records + after.records =~= after.records);
    }
}

/// A pass that stops at a boundary and one that goes on from there are the one pass over
/// the input, cut in two: every record is of one of them, and of one only.
pub proof fn a_pass_cut_in_two(c: Config, data: Seq<u8>, boundary: int, x: int)
    requires
        0 <= boundary,
        outcome(c, boundary, data).end == Ok::<Option<int>, Failure>(Some(x)),
    ensures
        ({
            let whole = outcome(c, beyond(data), data);
            let rest = outcome(c, beyond(data.skip(x)), data.skip(x));
            &&& 0 <= x <= data.len()
            &&& whole.records == outcome(c, boundary, data).records + rest.records
            &&& whole.end is Ok <==> rest.end is Ok
            &&& rest.end matches Err(f) ==> whole.end == Err::<Option<int>, Failure>(
                failure_shift(f, x),
            )
        }),
{
    let t = Task {
        config: c,
        data,
        access: Access { reach: 0, most: 0 },
        exact: true,
        acc: (),
        init: (),
    };
    let some = outcome(c, boundary, data).records;
    assert(data.skip(0) =~= data);
    outcome_bounds(c, boundary, data);
    pass_adds(t, 0, 0, seq![], boundary);
    assert(Seq::<Record>::empty() + some =~= some);
    if x < data.len() {
        pass_restarts(t, 0, x, some);
    } else {
        assert(data.skip(x) =~= seq![]);
        assert(some + outcome(c, beyond(data.skip(x)), data.skip(x)).records =~= some);
    }
}

/// The records of all logs, one after the other.
pub open spec fn joined(logs: Seq<Seq<Record>>) -> Seq<Record>
    decreases logs.len(),
{
    if logs.len() == 0 {
        seq![]
    } else {
        joined(logs.drop_last()) + logs.last()
    }
}

/// Folding the log from an initial state can lead to `state`.
pub open spec fn one_fold<
    S,
    O: Output + ?Sized,
    A: Accumulator<S, O>,
    I: FnOnce() -> S,
>(t: Task<A, I>, log: Seq<Record>, state: S) -> bool {
    exists|s0: S| #[trigger]
        call_ensures(t.init, (), s0) && folds::<S, O, A>(t.acc, s0, log, state)
}

/// Each state is what folding its log from an initial state can lead to.
pub open spec fn folded<
    S,
    O: Output + ?Sized,
    A: Accumulator<S, O>,
    I: FnOnce() -> S,
>(t: Task<A, I>, states: Seq<S>, logs: Seq<Seq<Record>>) -> bool {
    &&& states.len() == logs.len()
    &&& forall|k: int|
        0 <= k < states.len() ==> #[trigger] one_fold::<S, O, A, I>(t, logs[k], states[k])
}

/// The accumulator can take all of `records`, in as many folds as there are states.
pub open spec fn taken_in_order<
    S,
    O: Output + ?Sized,
    A: Accumulator<S, O>,
    I: FnOnce() -> S,
>(t: Task<A, I>, records: Seq<Record>) -> bool {
    exists|states: Seq<S>, logs: Seq<Seq<Record>>| #[trigger]
        folded::<S, O, A, I>(t, states, logs) && joined(logs) == records
}

/// With the first of `records` taken in as many folds as there are states, the
/// accumulator can turn one of the others down, in a fold that starts behind
/// them, with what is `e` once it is moved on.
pub open spec fn refused_in_order<
    S,
    O: Output + ?Sized,
    A: Accumulator<S, O>,
    I: FnOnce() -> S,
>(t: Task<A, I>, records: Seq<Record>, e: Error) -> bool {
    exists|states: Seq<S>, logs: Seq<Seq<Record>>, s0: S, shift: int|
        0 <= shift <= t.data.len() && starts(joined(logs), records) && call_ensures(
            t.init,
            (),
            s0,
        ) && #[trigger] folded::<S, O, A, I>(t, states, logs) && #[trigger] some_refused::<S, O, A>(
            t.acc,
            s0,
            records.skip(joined(logs).len() as int),
            shift,
            e,
        )
}

/// `e` is what the one pass from `r0` on fails with, or it points at the first byte of
/// its input that is not part of valid text, or the accumulator turned a record down
/// with it, or it is a failure to read.
pub open spec fn fails_in_order<
    S,
    O: Output + ?Sized,
    A: Accumulator<S, O>,
    I: FnOnce() -> S,
>(t: Task<A, I>, r0: int, e: Error) -> bool {
    let records = one_pass(t, r0).meaning(t.config).records;
    ||| reported(t.exact, t.config, one_pass(t, r0), e) && (t.exact ==> taken_in_order::<S, O, A, I>(
        t,
        records,
    ))
    ||| refused_in_order::<S, O, A, I>(t, records, e)
    ||| not_text::<O>(one_pass(t, r0), e)
    ||| needs(t.config, one_pass(t, r0), t.exact) > t.access.reach && e is IO
}

/// The states fold all records of the one pass from `r0` on, in order and without a
/// gap; what it reads is text if it has to be; and no record holds more than can be
/// held.
pub open spec fn covers<
    S,
    O: Output + ?Sized,
    A: Accumulator<S, O>,
    I: FnOnce() -> S,
>(t: Task<A, I>, r0: int, states: Seq<S>) -> bool {
    let whole = one_pass(t, r0).meaning(t.config);
    exists|logs: Seq<Seq<Record>>| #[trigger]
        folded::<S, O, A, I>(t, states, logs) && whole.end is Ok && joined(logs) == whole.records
            && text_to::<O, A, I>(t, r0, t.data.len() as int) && fits_in(whole.records, t.access.most)
}

/// What lies between the offsets is text, if it has to be.
pub open spec fn text_to<O: Output + ?Sized, A, I>(t: Task<A, I>, r0: int, e: int) -> bool {
    O::textual() ==> valid_utf8(t.data.subrange(r0, e))
}

/// What merging the chunks of an input comes to, in terms of one pass over it:
/// the states fold all records of the pass, in order and without a gap; and an
/// error is the error of the pass.
pub open spec fn in_order<
    S,
    O: Output + ?Sized,
    A: Accumulator<S, O>,
    I: FnOnce() -> S,
>(t: Task<A, I>, r0: int, m: core::result::Result<Seq<S>, Error>) -> bool {
    match m {
        Ok(states) => covers::<S, O, A, I>(t, r0, states),
        Err(e) => fails_in_order::<S, O, A, I>(t, r0, e),
    }
}

/// The outputs are those of the chunks of the input, one for each.
pub open spec fn outputs_meet<
    S,
    O: Output + ?Sized,
    A: Accumulator<S, O>,
    I: Fn() -> S,
>(t: Task<A, I>, outputs: Seq<ChunkOutput<S>>) -> bool {
    let size = t.config.chunk_size as int;
    &&& size > 0
    &&& outputs.len() > 0
    &&& (outputs.len() - 1) * size < t.data.len() <= outputs.len() * size
    &&& t.data.len() <= usize::MAX
    &&& forall|i: int|
        0 <= i < outputs.len() ==> passes_meet::<S, O, A, I>(
            t,
            i * size,
            chunk_stop(t, i),
            (#[trigger] outputs[i]).passes@,
            outputs[i].record_end,
        )
}

/// The merge has come to chunk `i` in order.
spec fn on_track<
    S,
    O: Output + ?Sized,
    A: Accumulator<S, O>,
    I: Fn() -> S,
>(
    t: Task<A, I>,
    r0: int,
    outputs: Seq<ChunkOutput<S>>,
    i: int,
    next: int,
    states: Seq<S>,
    logs: Seq<Seq<Record>>,
) -> bool {
    let whole = one_pass(t, r0).meaning(t.config);
    &&& 0 <= i <= outputs.len()
    &&& folded::<S, O, A, I>(t, states, logs)
    &&& comes_to(t, r0, next, joined(logs))
    &&& text_to::<O, A, I>(t, r0, next)
    &&& fits_in(joined(logs), t.access.most)
    &&& i == outputs.len() ==> whole.end is Ok && whole.records == joined(logs) && text_to::<
        O,
        A,
        I,
    >(t, r0, t.data.len() as int)
}

/// One more state, and the records that it folds.
proof fn folded_push<
    S,
    O: Output + ?Sized,
    A: Accumulator<S, O>,
    I: Fn() -> S,
>(t: Task<A, I>, states: Seq<S>, logs: Seq<Seq<Record>>, s0: S, log: Seq<Record>, state: S)
    requires
        folded::<S, O, A, I>(t, states, logs),
        call_ensures(t.init, (), s0),
        folds::<S, O, A>(t.acc, s0, log, state),
    ensures
        folded::<S, O, A, I>(t, states.push(state), logs.push(log)),
        joined(logs.push(log)) == joined(logs) + log,
{
    let all = logs.push(log);
    let now = states.push(state);
    assert(all.drop_last() =~= logs);
    assert forall|k: int| 0 <= k < now.len() implies #[trigger] one_fold::<S, O, A, I>(
        t,
        all[k],
        now[k],
    ) by {
        if k < states.len() {
            assert(one_fold::<S, O, A, I>(t, logs[k], states[k]));
        }
    }
}

/// A failure of a pass that starts where the one pass has come to is a failure
/// of the one pass.
proof fn fails_on_track<
    S,
    O: Output + ?Sized,
    A: Accumulator<S, O>,
    I: Fn() -> S,
>(
    t: Task<A, I>,
    r0: int,
    e: int,
    states: Seq<S>,
    logs: Seq<Seq<Record>>,
    end: int,
    shift: int,
    error: Error,
)
    requires
        comes_to(t, r0, e, joined(logs)),
        text_to::<O, A, I>(t, r0, e),
        folded::<S, O, A, I>(t, states, logs),
        0 <= shift <= t.data.len(),
        t.data.len() <= usize::MAX,
        pass_meets::<S, O, A, I>(t, e, end, shift, Err(error), None),
    ensures
        fails_in_order::<S, O, A, I>(t, r0, error),
{
    let c = t.config;
    let before = joined(logs);
    let p = pass_at(t.data, e, end);
    let m = p.meaning(c);
    let whole = one_pass(t, r0).meaning(c);
    let s0 = choose|s0: S| #[trigger]
        call_ensures(t.init, (), s0) && body_returns::<S, O, A>(
            PassResult { record_start: Some(e as usize), record_end: None, result: Err(error) },
            c,
            p,
            needs(c, p, t.exact) <= t.access.reach,
            t.access.most,
            t.exact,
            t.acc,
            s0,
            shift,
        );
    pass_adds(t, r0, e, before, end);
    needs_no_more(t, r0, e, before, end);
    if reported(t.exact, c, p, error) && (t.exact ==> taken::<S, O, A>(t.acc, s0, m.records)) {
        if e < t.data.len() {
            pass_restarts(t, r0, e, before);
        } else {
            assert(p.inp =~= seq![]);
        }
        assert(reported(t.exact, c, one_pass(t, r0), error));
        if t.exact {
            let state = choose|state: S| #[trigger]
                folds::<S, O, A>(t.acc, s0, m.records, state);
            folded_push::<S, O, A, I>(t, states, logs, s0, m.records, state);
            assert(joined(logs.push(m.records)) == whole.records);
            assert(taken_in_order::<S, O, A, I>(t, whole.records));
        }
    } else if some_refused::<S, O, A>(t.acc, s0, m.records, shift, error) {
        let a = before.len() as int;
        let rest = whole.records.skip(a);
        assert(rest.take(m.records.len() as int) =~= m.records) by {
            assert(whole.records.take(a + m.records.len()) =~= before + m.records);
            assert(rest.take(m.records.len() as int) =~= whole.records.take(
                a + m.records.len(),
            ).skip(a));
        }
        refused_earlier::<S, O, A>(t.acc, s0, m.records, rest, shift, error);
        assert(whole.records.take(a) =~= before) by {
            assert(whole.records.take(a) =~= whole.records.take(a + m.records.len()).take(a));
        }
        assert(refused_in_order::<S, O, A, I>(t, whole.records, error));
    } else if not_text::<O>(p, error) {
        let inp = t.data.skip(r0);
        let k = e - r0;
        let n = error->Utf8_position.byte_offset - e;
        assert(inp.take(k) =~= t.data.subrange(r0, e));
        assert(inp.skip(k) =~= p.inp);
        assert(inp.subrange(k, inp.len() as int) =~= p.inp);
        longest_text_shift(inp, k, inp.len() as int, n);
        if valid_utf8(inp) {
            cut_text(inp, k);
        }
        assert(not_text::<O>(one_pass(t, r0), error));
    }
}

/// What is turned down among the first records is turned down among all.
proof fn refused_earlier<S, O: Output + ?Sized, A: Accumulator<S, O>>(
    acc: A,
    s0: S,
    some: Seq<Record>,
    all: Seq<Record>,
    shift: int,
    e: Error,
)
    requires
        some.len() <= all.len(),
        all.take(some.len() as int) == some,
        some_refused::<S, O, A>(acc, s0, some, shift, e),
    ensures
        some_refused::<S, O, A>(acc, s0, all, shift, e),
{
    let (n, own) = choose|n: int, own: Error|
        0 <= n < some.len() && #[trigger] refuses::<S, O, A>(
            acc,
            s0,
            some.take(n),
            some[n],
            own,
        ) && e == own.moved(shift);
    assert(all.take(n) =~= some.take(n));
    assert(all[n] == all.take(some.len() as int)[n]);
    assert(refuses::<S, O, A>(acc, s0, all.take(n), all[n], own));
}

/// A pass that starts where the one pass has come to needs no more room.
proof fn needs_no_more<A, I>(t: Task<A, I>, r0: int, e: int, before: Seq<Record>, end: int)
    requires
        comes_to(t, r0, e, before),
    ensures
        needs(t.config, pass_at(t.data, e, end), t.exact) <= needs(
            t.config,
            one_pass(t, r0),
            t.exact,
        ),
{
    let c = t.config;
    let runs = !t.exact;
    let inp0 = t.data.skip(r0);
    let inp = t.data.skip(e);
    if e == r0 && before.len() == 0 {
    } else if e == t.data.len() {
        widest_bounds(c, runs, inp0, 0, inp0.len());
        assert(inp.len() == 0);
    } else {
        assert(inp0.skip(e - r0) =~= inp);
        assert(inp0[e - r0] == t.data[e]);
        widest_behind(c, runs, inp0, e - r0);
    }
}

/// The text up to where a pass ends, or to the end of the input if nothing stops it.
proof fn pass_reads_text<O: Output + ?Sized, A, I>(t: Task<A, I>, r0: int, e: int, end: int)
    requires
        0 <= r0 <= e <= t.data.len(),
        t.config.ascii(),
        valid_utf8(t.data.subrange(r0, e)),
        ({
            let p = pass_at(t.data, e, end);
            p.meaning(t.config).end is Ok && valid_utf8(p.inp.take(read_to(t.config, p)))
        }),
    ensures
        ({
            let m = pass_at(t.data, e, end).meaning(t.config);
            let next = match m.end {
                Ok(Some(x)) => e + x,
                _ => t.data.len() as int,
            };
            &&& valid_utf8(t.data.subrange(r0, next))
            &&& end >= t.data.len() ==> valid_utf8(t.data.skip(r0))
        }),
{
    let c = t.config;
    let p = pass_at(t.data, e, end);
    let n = p.inp.len();
    let inp = t.data.skip(r0);
    let k = e - r0;
    let to = read_to(c, p);
    scan_bounds(c, p.boundary, p.inp, n);
    scan_ends(c, p.boundary, p.inp, n);
    assert(inp.take(k) =~= t.data.subrange(r0, e));
    assert(inp.subrange(k, k + to) =~= p.inp.take(to));
    extend_text(inp, k, k + to);
    if to == n {
        assert(inp.take(k + to) =~= inp);
        if let Ok(Some(x)) = p.meaning(c).end {
            if x < n {
                assert(c.controls()[1] == Some(c.terminator.pair().0));
                assert(c.controls()[2] == c.terminator.pair().1);
                assert(inp[k + x] == p.inp[x]);
                cut_at_ascii(inp, k + x);
                assert(inp.take(k + x) =~= t.data.subrange(r0, e + x));
            } else {
                assert(t.data.subrange(r0, e + x) =~= inp);
            }
        } else {
            assert(t.data.subrange(r0, t.data.len() as int) =~= inp);
        }
    } else {
        assert(inp.take(k + to) =~= t.data.subrange(r0, e + to));
    }
}

/// A pass that starts where the one pass has come to keeps the merge in order.
proof fn stays_on_track<
    S,
    O: Output + ?Sized,
    A: Accumulator<S, O>,
    I: Fn() -> S,
>(
    t: Task<A, I>,
    r0: int,
    outputs: Seq<ChunkOutput<S>>,
    i: int,
    e: int,
    shift: int,
    states: Seq<S>,
    logs: Seq<Seq<Record>>,
    state: S,
    record_end: Option<usize>,
)
    requires
        outputs_meet::<S, O, A, I>(t, outputs),
        0 <= i < outputs.len(),
        O::textual() ==> t.config.ascii(),
        folded::<S, O, A, I>(t, states, logs),
        comes_to(t, r0, e, joined(logs)),
        text_to::<O, A, I>(t, r0, e),
        fits_in(joined(logs), t.access.most),
        pass_meets::<S, O, A, I>(t, e, chunk_stop(t, i), shift, Ok(state), record_end),
    ensures
        ({
            let m = pass_at(t.data, e, chunk_stop(t, i)).meaning(t.config);
            on_track::<S, O, A, I>(
                t,
                r0,
                outputs,
                i + 1,
                resumes_at(record_end, t.data.len() as int),
                states.push(state),
                logs.push(m.records),
            )
        }),
{
    let c = t.config;
    let end = chunk_stop(t, i);
    let p = pass_at(t.data, e, end);
    let m = p.meaning(c);
    let s0 = choose|s0: S| #[trigger]
        call_ensures(t.init, (), s0) && body_returns::<S, O, A>(
            PassResult { record_start: Some(e as usize), record_end, result: Ok(state) },
            c,
            p,
            needs(c, p, t.exact) <= t.access.reach,
            t.access.most,
            t.exact,
            t.acc,
            s0,
            shift,
        );
    pass_adds(t, r0, e, joined(logs), end);
    folded_push::<S, O, A, I>(t, states, logs, s0, m.records, state);
    if O::textual() {
        pass_reads_text::<O, A, I>(t, r0, e, end);
    }
    let both = joined(logs) + m.records;
    assert forall|r: int| 0 <= r < both.len() implies content(#[trigger] both[r])
        <= t.access.most by {
        if r < joined(logs).len() {
            assert(both[r] == joined(logs)[r]);
        } else {
            assert(both[r] == m.records[r - joined(logs).len()]);
        }
    }
    if i + 1 == outputs.len() {
        assert(end == t.data.len());
        assert(t.data.subrange(r0, t.data.len() as int) =~= t.data.skip(r0));
    }
}

/// Where the one pass has come to the end of the input it is complete.
proof fn complete_at_the_end<A, I>(t: Task<A, I>, r0: int, e: int, before: Seq<Record>)
    requires
        comes_to(t, r0, e, before),
        e >= t.data.len(),
    ensures
        e == t.data.len(),
        one_pass(t, r0).meaning(t.config).end is Ok,
        one_pass(t, r0).meaning(t.config).records == before,
{
    if e == r0 && before.len() == 0 {
        assert(t.data.skip(r0) =~= seq![]);
        assert(before =~= seq![]);
    }
}

/// The merge stays in order from chunk to chunk.
proof fn merge_in_order<
    S,
    O: Output + ?Sized,
    A: Accumulator<S, O>,
    I: Fn() -> S,
>(
    t: Task<A, I>,
    r0: int,
    outputs: Seq<ChunkOutput<S>>,
    i: int,
    next: int,
    states: Seq<S>,
    logs: Seq<Seq<Record>>,
    m: core::result::Result<Seq<S>, Error>,
)
    requires
        outputs_meet::<S, O, A, I>(t, outputs),
        O::textual() ==> t.config.ascii(),
        on_track::<S, O, A, I>(t, r0, outputs, i, next, states, logs),
        merges(
            t.config.chunk_size as int,
            t.data.len() as int,
            outputs,
            |a: int, b: int, x: crate::Result<(S, Option<usize>)>|
                redone::<S, O, A, I>(t, a, b, x),
            i,
            next,
            states,
            m,
        ),
    ensures
        in_order::<S, O, A, I>(t, r0, m),
    decreases outputs.len() - i,
{
    let size = t.config.chunk_size as int;
    let len = t.data.len() as int;
    let again = |a: int, b: int, x: crate::Result<(S, Option<usize>)>|
        redone::<S, O, A, I>(t, a, b, x);
    if i == outputs.len() {
        assert(folded::<S, O, A, I>(t, states, logs));
        assert(covers::<S, O, A, I>(t, r0, states));
    } else {
        let o = outputs[i];
        let limit = chunk_limit(i, size);
        let end = chunk_stop(t, i);
        assert((i + 1) * size >= size && (i + 1 == outputs.len() ==> (i + 1) * size >= len)) by (
        nonlinear_arith)
            requires
                i >= 0,
                size > 0,
                len <= outputs.len() * size,
        ;
        assert(0 <= i * size <= (outputs.len() - 1) * size) by (nonlinear_arith)
            requires
                0 <= i <= outputs.len() - 1,
                size > 0,
        ;
        if passed_over(o.passes@, next, limit, len) {
            if i + 1 == outputs.len() {
                complete_at_the_end(t, r0, next, joined(logs));
            }
            merge_in_order::<S, O, A, I>(t, r0, outputs, i + 1, next, states, logs, m);
        } else if none_picked(o.passes@, next) {
            let x = choose|x: crate::Result<(S, Option<usize>)>| #[trigger]
                again(next, limit, x) && match x {
                    Err(e) => m == Err::<Seq<S>, Error>(e),
                    Ok((state, record_end)) => merges(
                        size,
                        len,
                        outputs,
                        again,
                        i + 1,
                        resumes_at(record_end, len),
                        states.push(state),
                        m,
                    ),
                };
            assert(redone::<S, O, A, I>(t, next, limit, x));
            match x {
                Err(error) => {
                    let inp = one_pass(t, r0).inp;
                    widest_bounds(t.config, !t.exact, inp, 0, inp.len());
                    if pass_meets::<S, O, A, I>(t, next, end, next, Err(error), None) {
                        fails_on_track::<S, O, A, I>(
                            t,
                            r0,
                            next,
                            states,
                            logs,
                            end,
                            next,
                            error,
                        );
                    }
                    assert(m == Err::<Seq<S>, Error>(error));
                },
                Ok((state, record_end)) => {
                    stays_on_track::<S, O, A, I>(
                        t,
                        r0,
                        outputs,
                        i,
                        next,
                        next,
                        states,
                        logs,
                        state,
                        record_end,
                    );
                    let all = logs.push(pass_at(t.data, next, end).meaning(t.config).records);
                    merge_in_order::<S, O, A, I>(
                        t,
                        r0,
                        outputs,
                        i + 1,
                        resumes_at(record_end, len),
                        states.push(state),
                        all,
                        m,
                    );
                },
            }
        } else {
            let j = choose|j: int| #[trigger]
                picked(o.passes@, next, j) && match o.passes@[j].result {
                    Err(e) => m == Err::<Seq<S>, Error>(e),
                    Ok(state) => merges(
                        size,
                        len,
                        outputs,
                        again,
                        i + 1,
                        resumes_at(o.record_end, len),
                        states.push(state),
                        m,
                    ),
                };
            let p = o.passes@[j];
            match p.result {
                Err(error) => {
                    fails_on_track::<S, O, A, I>(
                        t,
                        r0,
                        next,
                        states,
                        logs,
                        end,
                        i * size,
                        error,
                    );
                    assert(m == Err::<Seq<S>, Error>(error));
                },
                Ok(state) => {
                    stays_on_track::<S, O, A, I>(
                        t,
                        r0,
                        outputs,
                        i,
                        next,
                        i * size,
                        states,
                        logs,
                        state,
                        o.record_end,
                    );
                    let all = logs.push(pass_at(t.data, next, end).meaning(t.config).records);
                    merge_in_order::<S, O, A, I>(
                        t,
                        r0,
                        outputs,
                        i + 1,
                        resumes_at(o.record_end, len),
                        states.push(state),
                        all,
                        m,
                    );
                },
            }
        }
    }
}

/// Parsing an input chunk by chunk and merging gives what one pass over it
/// gives: the merged states fold all records of the one pass from the first
/// boundary on, in order and without a gap, wherever the chunks were cut; and an
/// error is an error of that pass.
pub proof fn chunked_parse_is_sequential<
    S,
    O: Output + ?Sized,
    A: Accumulator<S, O>,
    I: Fn() -> S,
>(
    t: Task<A, I>,
    r0: int,
    outputs: Seq<ChunkOutput<S>>,
    m: core::result::Result<Seq<S>, Error>,
)
    requires
        outputs_meet::<S, O, A, I>(t, outputs),
        O::textual() ==> t.config.ascii(),
        0 <= r0 <= t.data.len(),
        merges(
            t.config.chunk_size as int,
            t.data.len() as int,
            outputs,
            |a: int, b: int, x: crate::Result<(S, Option<usize>)>|
                redone::<S, O, A, I>(t, a, b, x),
            0,
            r0,
            seq![],
            m,
        ),
    ensures
        in_order::<S, O, A, I>(t, r0, m),
{
    let logs: Seq<Seq<Record>> = seq![];
    assert(folded::<S, O, A, I>(t, seq![], logs));
    assert(t.data.subrange(r0, r0) =~= seq![]);
    assert(valid_utf8(Seq::<u8>::empty()));
    merge_in_order::<S, O, A, I>(t, r0, outputs, 0, r0, seq![], logs, m);
}

/// What holds of parsing anew carries over to the merge.
pub proof fn merges_weaken<S>(
    chunk_size: int,
    len: int,
    outputs: Seq<ChunkOutput<S>>,
    one: spec_fn(int, int, crate::Result<(S, Option<usize>)>) -> bool,
    other: spec_fn(int, int, crate::Result<(S, Option<usize>)>) -> bool,
    i: int,
    next: int,
    states: Seq<S>,
    m: core::result::Result<Seq<S>, Error>,
)
    requires
        merges(chunk_size, len, outputs, one, i, next, states, m),
        chunk_size >= 0,
        0 <= i,
        0 <= next <= usize::MAX,
        0 <= len <= usize::MAX,
        forall|a: int, b: int, x: crate::Result<(S, Option<usize>)>|
            0 <= a <= usize::MAX && 0 <= b <= usize::MAX && #[trigger] one(a, b, x) ==> other(
                a,
                b,
                x,
            ),
    ensures
        merges(chunk_size, len, outputs, other, i, next, states, m),
    decreases outputs.len() - i,
{
    if i < outputs.len() {
        let o = outputs[i];
        let end = chunk_limit(i, chunk_size);
        assert((i + 1) * chunk_size >= 0) by (nonlinear_arith)
            requires
                i >= 0,
                chunk_size >= 0,
        ;
        if passed_over(o.passes@, next, end, len) {
            merges_weaken(chunk_size, len, outputs, one, other, i + 1, next, states, m);
        } else if none_picked(o.passes@, next) {
            let again = choose|again: crate::Result<(S, Option<usize>)>| #[trigger]
                one(next, end, again) && match again {
                    Err(e) => m == Err::<Seq<S>, Error>(e),
                    Ok((state, record_end)) => merges(
                        chunk_size,
                        len,
                        outputs,
                        one,
                        i + 1,
                        resumes_at(record_end, len),
                        states.push(state),
                        m,
                    ),
                };
            assert(other(next, end, again));
            if let Ok((state, record_end)) = again {
                merges_weaken(
                    chunk_size,
                    len,
                    outputs,
                    one,
                    other,
                    i + 1,
                    resumes_at(record_end, len),
                    states.push(state),
                    m,
                );
            }
        } else {
            let j = choose|j: int| #[trigger]
                picked(o.passes@, next, j) && match o.passes@[j].result {
                    Err(e) => m == Err::<Seq<S>, Error>(e),
                    Ok(state) => merges(
                        chunk_size,
                        len,
                        outputs,
                        one,
                        i + 1,
                        resumes_at(o.record_end, len),
                        states.push(state),
                        m,
                    ),
                };
            assert(picked(o.passes@, next, j));
            if let Ok(state) = o.passes@[j].result {
                merges_weaken(
                    chunk_size,
                    len,
                    outputs,
                    one,
                    other,
                    i + 1,
                    resumes_at(o.record_end, len),
                    states.push(state),
                    m,
                );
            }
        }
    }
}

} // verus!
