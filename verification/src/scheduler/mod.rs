//! Running a parse: split the input into chunks, parse them, merge the results.
//!
//! The scheduler implements the speculative parsing strategy:
//! 1. Split the input into chunks.
//! 2. Parse each chunk under each assumption until one succeeds.
//! 3. Merge phase: resolve the correct assumption per chunk by aligning
//!    record boundaries, then call the user's merge function.

pub mod dispatch;
pub mod laws;
pub mod merge;
pub mod order;
pub mod resolve;
pub mod slot;

use vstd::prelude::*;

use self::merge::{
    collect_and_merge, merge_returns, merged, merges, slotted, ChunkOutput, ResolvedPass,
};
use self::order::{chunked_parse_is_sequential, in_order, merges_weaken, outputs_meet};
use self::resolve::ResolvedConfig;
use self::slot::WriteOnceSlot;
use crate::config::Config;
use crate::error::{lifted, Error, Position};
use crate::io::{Access, Input, IoContext};
use crate::parser::chunk::{
    assumptions, assumptions_for_config, body_rebase, body_returns, first_record, in_chunk,
    rebased, Assumption, ChunkParser, FindRecordStart, PassResult,
};
use crate::parser::driver::{needs, slack, Pass};
use crate::parser::fold::{total, Accumulator};
use crate::parser::dfa::table::State;
use crate::parser::grammar::{
    header_search, search_bounds, search_stopped, widest_bounds, Found, Probe,
};
use crate::parser::output::Output;

verus! {

/// What a parse is about: the dialect, the input, how it can be read, whether the
/// parser reports failures exactly, and the functions of the caller.
pub struct Task<A, I> {
    pub config: Config,
    pub data: Seq<u8>,
    pub access: Access,
    pub exact: bool,
    pub acc: A,
    pub init: I,
}

/// The pass over the input from offset `start`, with the boundary at offset `end`.
pub open spec fn pass_at(data: Seq<u8>, start: int, end: int) -> Pass {
    Pass { inp: data.skip(start), base: start, boundary: end - start }
}

/// How many bytes at a time a parse of `data` asks for at most: what the one pass over
/// it does that starts where its records do.
pub open spec fn needs_in_all(c: Config, data: Seq<u8>, exact: bool) -> int {
    match header_end(c, data) {
        Some(Found::Start(r0)) => needs(
            c,
            pass_at(data, r0, data.len() as int + 1),
            exact,
        ),
        _ => slack(exact) as int,
    }
}

/// Reading is sure to succeed.
pub open spec fn sure<A, I>(t: Task<A, I>) -> bool {
    needs_in_all(t.config, t.data, t.exact) <= t.access.reach
}

/// A pass from the record boundary at `start` to the one at or behind `end`
/// comes to `result` and ends at `record_end`, offsets counted in the whole
/// input.
pub open spec fn pass_meets<
    S,
    O: Output + ?Sized,
    A: Accumulator<S, O>,
    I: Fn() -> S,
>(
    t: Task<A, I>,
    start: int,
    end: int,
    shift: int,
    result: crate::Result<S>,
    record_end: Option<usize>,
) -> bool {
    &&& 0 <= start <= end <= t.data.len()
    &&& exists|s0: S| #[trigger]
        call_ensures(t.init, (), s0) && body_returns::<S, O, A>(
            PassResult { record_start: Some(start as usize), record_end, result },
            t.config,
            pass_at(t.data, start, end),
            needs(t.config, pass_at(t.data, start, end), t.exact) <= t.access.reach,
            t.access.most,
            t.exact,
            t.acc,
            s0,
            shift,
        )
}

/// The passes over the chunk `[start, end)` are passes from record boundaries
/// in it; only the last can have succeeded, and the chunk's end is its.
pub open spec fn passes_meet<
    S,
    O: Output + ?Sized,
    A: Accumulator<S, O>,
    I: Fn() -> S,
>(
    t: Task<A, I>,
    start: int,
    end: int,
    passes: Seq<ResolvedPass<S>>,
    record_end: Option<usize>,
) -> bool {
    &&& forall|j: int|
        0 <= j < passes.len() ==> {
            let p = #[trigger] passes[j];
            &&& start <= p.record_start
            &&& match p.result {
                Ok(_) => j == passes.len() - 1 && pass_meets::<S, O, A, I>(
                    t,
                    p.record_start as int,
                    end,
                    start,
                    p.result,
                    record_end,
                ),
                Err(_) => pass_meets::<S, O, A, I>(
                    t,
                    p.record_start as int,
                    end,
                    start,
                    p.result,
                    None,
                ),
            }
        }
    &&& passes.len() == 0 || passes.last().result is Err ==> record_end is None
}

/// The record boundaries that a chunk shows under the given assumptions.
pub open spec fn starts_in(
    c: Config,
    find: FindRecordStart,
    guesses: Seq<Assumption>,
    rest: Seq<u8>,
    left: nat,
    exact: bool,
) -> Seq<int>
    decreases guesses.len(),
{
    if guesses.len() == 0 {
        seq![]
    } else {
        let before = starts_in(c, find, guesses.drop_last(), rest, left, exact);
        match first_record(c, find, guesses.last(), rest, left, exact) {
            Some(Found::Start(i)) => before.push(i),
            _ => before,
        }
    }
}

/// Under one of the assumptions the chunk shows neither a boundary nor a fault.
pub open spec fn some_clean(
    c: Config,
    find: FindRecordStart,
    guesses: Seq<Assumption>,
    rest: Seq<u8>,
    left: nat,
    exact: bool,
) -> bool {
    exists|k: int|
        0 <= k < guesses.len() && first_record(c, find, #[trigger] guesses[k], rest, left, exact) is None
}

/// The record boundaries that count for a chunk: those that a strict search
/// shows; and those that a lenient one shows if the strict one turned every
/// assumption down.
pub open spec fn chunk_starts(
    c: Config,
    find: FindRecordStart,
    guesses: Seq<Assumption>,
    rest: Seq<u8>,
    left: nat,
    exact: bool,
) -> Seq<int> {
    let strict = starts_in(c, find, guesses, rest, left, exact);
    if strict.len() == 0 && find == FindRecordStart::Strict && !some_clean(
        c,
        find,
        guesses,
        rest,
        left,
        exact,
    ) {
        starts_in(c, FindRecordStart::Lenient, guesses, rest, left, exact)
    } else {
        strict
    }
}

/// The passes start at the boundaries, one after the other, up to the first
/// pass that succeeds.
pub open spec fn passes_start<S>(passes: Seq<ResolvedPass<S>>, start: int, starts: Seq<int>) -> bool {
    &&& passes.len() <= starts.len()
    &&& forall|j: int|
        0 <= j < passes.len() ==> (#[trigger] passes[j]).record_start == start + starts[j]
    &&& passes.len() == starts.len() || (passes.len() > 0 && passes.last().result is Ok)
}

/// Every pass starts at one of the boundaries.
pub open spec fn starts_among<S>(passes: Seq<ResolvedPass<S>>, start: int, starts: Seq<int>) -> bool {
    forall|j: int|
        0 <= j < passes.len() ==> starts.contains((#[trigger] passes[j]).record_start - start)
}

/// The parser and the functions of the caller fit the task.
pub open spec fn task_fits<
    S,
    O: Output + ?Sized,
    A: Accumulator<S, O>,
    I: Fn() -> S,
    P: ChunkParser,
>(t: Task<A, I>, parser: P, acc: A, init: I) -> bool {
    &&& parser.wf()
    &&& parser.dialect() == t.config
    &&& P::exact() == t.exact
    &&& acc == t.acc
    &&& init == t.init
    &&& t.config.escape is Some ==> t.config.quote is Some
    &&& O::textual() ==> t.config.ascii()
    &&& t.data.len() < usize::MAX
    &&& total::<S, O, A>(acc)
    &&& call_requires(init, ())
}

/// Outcome of a single `try_assumptions` call.
pub enum TryOutcome<S> {
    /// At least one assumption produced a pass.
    Resolved { passes: Vec<ResolvedPass<S>>, record_end: Option<usize> },
    /// No boundary was found.
    CleanNoBoundary,
    /// Every assumption errored in the search for a record start.
    AllFailed,
}

/// Try each assumption in priority order with the given find mode.
///
/// Returns:
/// - `Resolved` when at least one assumption produced a pass (successful
///   or errored-after-boundary).
/// - `CleanNoBoundary` when no assumption produced a pass but at least one
///   scanned to the end of the chunk cleanly:
///   no boundary starts in this chunk. A lenient retry can't help — the
///   scan is identical, only the strict probe differs. (We must try *all*
///   assumptions first: a chunk opening mid-quoted-field scans cleanly
///   under OutOfQuotes yet InQuotes finds the real boundary.)
/// - `AllFailed` when every assumption errored in the search.
///   Only under strict is this recoverable via a lenient retry.
///
/// A search that could not read the chunk counts as one that errored; where
/// reading is sure to succeed, the passes are those from all boundaries, up to the
/// first that succeeds.
pub fn try_assumptions<
    S,
    O: Output + ?Sized,
    A: Accumulator<S, O>,
    I: Fn() -> S,
    P: ChunkParser,
    C: IoContext,
>(
    chunk_start: usize,
    chunk_end: usize,
    ctx: &mut C,
    parser: &P,
    guesses: &Vec<Assumption>,
    init: &I,
    acc: &A,
    find: FindRecordStart,
) -> (r: crate::Result<TryOutcome<S>>)
    requires
        old(ctx).wf(),
        chunk_start <= chunk_end <= old(ctx).data().len(),
        task_fits::<S, O, A, I, P>(task_of(*parser, *old(ctx), *acc, *init), *parser, *acc, *init),
        guesses@ == assumptions(parser.dialect().quote, parser.dialect().escape),
    ensures
        final(ctx).wf(),
        final(ctx).data() == old(ctx).data(),
        final(ctx).reach() == old(ctx).reach(),
        final(ctx).most() == old(ctx).most(),
        ({
            let t = task_of(*parser, *old(ctx), *acc, *init);
            let rest = t.data.skip(chunk_start as int);
            let left = (chunk_end - chunk_start) as nat;
            let starts = starts_in(t.config, find, guesses@, rest, left, t.exact);
            let clean = some_clean(t.config, find, guesses@, rest, left, t.exact);
            match r {
                Err(e) => t.access.reach == 0 && e is IO,
                Ok(TryOutcome::Resolved { passes, record_end }) => {
                    &&& passes@.len() > 0
                    &&& passes_meet::<S, O, A, I>(
                        t,
                        chunk_start as int,
                        chunk_end as int,
                        passes@,
                        record_end,
                    )
                    &&& starts_among(passes@, chunk_start as int, starts)
                    &&& t.access.reach >= slack(t.exact) ==> passes_start(
                        passes@,
                        chunk_start as int,
                        starts,
                    )
                },
                Ok(TryOutcome::CleanNoBoundary) => clean && (t.access.reach >= slack(
                    t.exact,
                ) ==> starts.len() == 0),
                Ok(TryOutcome::AllFailed) => t.access.reach >= slack(t.exact) ==> starts.len() == 0
                    && !clean,
            }
        }),
{
    let ghost t = task_of(*parser, *ctx, *acc, *init);
    let ghost rest = t.data.skip(chunk_start as int);
    let ghost left = (chunk_end - chunk_start) as nat;
    let ghost c = t.config;
    let ghost exact = t.exact;
    let mut passes: Vec<ResolvedPass<S>> = Vec::new();
    let mut saw_clean = false;
    let mut k: usize = 0;
    assert(guesses@.take(0) =~= seq![]);
    while k < guesses.len()
        invariant
            ctx.wf(),
            ctx.data() == t.data,
            ctx.reach() == t.access.reach,
            ctx.most() == t.access.most,
            t == task_of(*parser, *old(ctx), *acc, *init),
            c == t.config,
            exact == t.exact,
            task_fits::<S, O, A, I, P>(t, *parser, *acc, *init),
            guesses@ == assumptions(c.quote, c.escape),
            chunk_start <= chunk_end <= t.data.len(),
            rest == t.data.skip(chunk_start as int),
            left == chunk_end - chunk_start,
            k <= guesses@.len(),
            passes_meet::<S, O, A, I>(t, chunk_start as int, chunk_end as int, passes@, None),
            forall|j: int| 0 <= j < passes@.len() ==> (#[trigger] passes@[j]).result is Err,
            starts_among(
                passes@,
                chunk_start as int,
                starts_in(c, find, guesses@.take(k as int), rest, left, exact),
            ),
            saw_clean ==> some_clean(c, find, guesses@.take(k as int), rest, left, exact),
            t.access.reach >= slack(t.exact) ==> {
                &&& passes_start(
                    passes@,
                    chunk_start as int,
                    starts_in(c, find, guesses@.take(k as int), rest, left, exact),
                )
                &&& saw_clean == some_clean(c, find, guesses@.take(k as int), rest, left, exact)
            },
        decreases guesses@.len() - k,
    {
        let assumption = guesses[k];
        let state = init();
        let ghost s0 = state;
        let mut reader = match ctx.chunk_reader(chunk_start, chunk_end) {
            Ok(reader) => reader,
            Err(e) => {
                return Err(Error::IO(e));
            },
        };
        let ghost stop = first_record(c, find, assumption, rest, left, exact);
        let pr = parser.parse(&mut reader, state, assumption, acc, find);
        proof {
            assert(guesses@.contains(assumption));
            let now = guesses@.take(k + 1);
            assert(now.drop_last() =~= guesses@.take(k as int));
            assert(now.last() == assumption);
            assert(some_clean(c, find, now, rest, left, exact) == (some_clean(
                c,
                find,
                guesses@.take(k as int),
                rest,
                left,
                exact,
            ) || stop is None)) by {
                if some_clean(c, find, guesses@.take(k as int), rest, left, exact) {
                    let i = choose|i: int|
                        0 <= i < k && first_record(
                            c,
                            find,
                            #[trigger] guesses@.take(k as int)[i],
                            rest,
                            left,
                            exact,
                        ) is None;
                    assert(now[i] == guesses@.take(k as int)[i]);
                }
                if stop is None {
                    assert(now[k as int] == assumption);
                }
                if some_clean(c, find, now, rest, left, exact) {
                    let i = choose|i: int|
                        0 <= i < k + 1 && first_record(c, find, #[trigger] now[i], rest, left, exact) is None;
                    if i < k {
                        assert(now[i] == guesses@.take(k as int)[i]);
                    }
                }
            }
        }
        let ghost whole = pr;
        let ghost earlier = starts_in(c, find, guesses@.take(k as int), rest, left, exact);
        let ghost now = starts_in(c, find, guesses@.take(k + 1), rest, left, exact);
        proof {
            assert(now == if stop matches Some(Found::Start(i)) {
                earlier.push(stop->0->Start_0)
            } else {
                earlier
            });
            assert forall|x: int| earlier.contains(x) implies now.contains(x) by {
                let i = choose|i: int| 0 <= i < earlier.len() && earlier[i] == x;
                assert(now[i] == x);
            }
        }
        match pr.record_start {
            Some(start) => {
                proof {
                    assert(now[earlier.len() as int] == start);
                    assert(now.contains(start as int));
                }
                let ghost p = crate::parser::chunk::body_pass(rest, left, start as int);
                let ghost far = rebased(whole, chunk_start as int);
                proof {
                    body_rebase::<S, O, A>(
                        whole,
                        c,
                        p,
                        chunk_start as int,
                        needs(c, p, exact) <= t.access.reach,
                        t.access.most,
                        t.exact,
                        t.acc,
                        s0,
                    );
                    assert(rest.skip(start as int) =~= t.data.skip(chunk_start + start));
                    assert(pass_at(t.data, chunk_start + start, chunk_end as int) == (Pass {
                        base: p.base + chunk_start,
                        ..p
                    }));
                }
                let record_start: usize = chunk_start + start;
                let ghost before = passes@;
                match pr.result {
                    Ok(state) => {
                        let record_end: Option<usize> = match pr.record_end {
                            Some(o) => {
                                proof {
                                    crate::parser::grammar::outcome_bounds(c, p.boundary, p.inp);
                                }
                                Some(chunk_start + o)
                            },
                            None => None,
                        };
                        passes.push(ResolvedPass { record_start, result: Ok(state) });
                        proof {
                            assert(passes@.last().result == far.result);
                            assert(record_end == far.record_end);
                            assert(pass_meets::<S, O, A, I>(
                                t,
                                record_start as int,
                                chunk_end as int,
                                chunk_start as int,
                                far.result,
                                far.record_end,
                            ));
                            assert forall|j: int| 0 <= j < passes@.len() implies {
                                let q = #[trigger] passes@[j];
                                &&& chunk_start <= q.record_start
                                &&& match q.result {
                                    Ok(_) => j == passes@.len() - 1 && pass_meets::<S, O, A, I>(
                                        t,
                                        q.record_start as int,
                                        chunk_end as int,
                                        chunk_start as int,
                                        q.result,
                                        record_end,
                                    ),
                                    Err(_) => pass_meets::<S, O, A, I>(
                                        t,
                                        q.record_start as int,
                                        chunk_end as int,
                                        chunk_start as int,
                                        q.result,
                                        None,
                                    ),
                                }
                            } by {
                                if j < before.len() {
                                    assert(passes@[j] == before[j]);
                                }
                            }
                            starts_extend(c, find, guesses@, k as int + 1, rest, left, exact);
                            let all = starts_in(c, find, guesses@, rest, left, exact);
                            assert forall|j: int| 0 <= j < passes@.len() implies all.contains(
                                (#[trigger] passes@[j]).record_start - chunk_start,
                            ) by {
                                let x = passes@[j].record_start - chunk_start;
                                if j < before.len() {
                                    assert(passes@[j] == before[j]);
                                    assert(earlier.contains(x));
                                }
                                assert(now.contains(x));
                                let i = choose|i: int| 0 <= i < now.len() && now[i] == x;
                                assert(all[i] == x);
                            }
                        }
                        return Ok(TryOutcome::Resolved { passes, record_end });
                    },
                    Err(e) => {
                        // Chunk-local error offsets become absolute here.
                        // No-op for variants without a position.
                        let e = e.with_base(chunk_start);
                        passes.push(ResolvedPass { record_start, result: Err(e) });
                        proof {
                            assert(passes@.last().result == far.result);
                            assert(pass_meets::<S, O, A, I>(
                                t,
                                record_start as int,
                                chunk_end as int,
                                chunk_start as int,
                                far.result,
                                None,
                            ));
                            assert forall|j: int| 0 <= j < passes@.len() implies {
                                let q = #[trigger] passes@[j];
                                &&& chunk_start <= q.record_start
                                &&& q.result is Err
                                &&& pass_meets::<S, O, A, I>(
                                    t,
                                    q.record_start as int,
                                    chunk_end as int,
                                    chunk_start as int,
                                    q.result,
                                    None,
                                )
                            } by {
                                if j < before.len() {
                                    assert(passes@[j] == before[j]);
                                }
                            }
                            assert forall|j: int| 0 <= j < passes@.len() implies now.contains(
                                (#[trigger] passes@[j]).record_start - chunk_start,
                            ) by {
                                if j < before.len() {
                                    assert(passes@[j] == before[j]);
                                }
                            }
                        }
                    },
                }
            },
            None => match pr.result {
                Ok(_) => {
                    // A clean scan under *this* assumption doesn't prove
                    // the chunk has no boundary — see `CleanNoBoundary`
                    // above — so keep trying the others.
                    saw_clean = true;
                },
                Err(_) => {
                    // The search errored under this assumption — try
                    // the next one.
                },
            },
        }
        k += 1;
    }
    assert(guesses@.take(k as int) =~= guesses@);
    if passes.len() > 0 {
        Ok(TryOutcome::Resolved { passes, record_end: None })
    } else if saw_clean {
        // Every assumption scanned to the end without a boundary (some
        // may have errored first). A boundary genuinely doesn't start in
        // this chunk; a lenient retry can't help — the scan is the same,
        // only the strict probe differs.
        Ok(TryOutcome::CleanNoBoundary)
    } else {
        Ok(TryOutcome::AllFailed)
    }
}

/// The boundaries under the first assumptions are the first of all boundaries.
proof fn starts_extend(
    c: Config,
    find: FindRecordStart,
    guesses: Seq<Assumption>,
    k: int,
    rest: Seq<u8>,
    left: nat,
    exact: bool,
)
    requires
        0 <= k <= guesses.len(),
    ensures
        ({
            let some = starts_in(c, find, guesses.take(k), rest, left, exact);
            let all = starts_in(c, find, guesses, rest, left, exact);
            some.len() <= all.len() && forall|j: int| 0 <= j < some.len() ==> some[j] == all[j]
        }),
    decreases guesses.len() - k,
{
    if k < guesses.len() {
        starts_extend(c, find, guesses, k + 1, rest, left, exact);
        let now = guesses.take(k + 1);
        assert(now.drop_last() =~= guesses.take(k));
    } else {
        assert(guesses.take(k) =~= guesses);
    }
}

/// What is found out about chunk number `idx`: passes from record boundaries that
/// it shows, from all that count if reading is sure to succeed.
pub open spec fn output_meets<
    S,
    O: Output + ?Sized,
    A: Accumulator<S, O>,
    I: Fn() -> S,
>(t: Task<A, I>, find: FindRecordStart, idx: int, o: ChunkOutput<S>) -> bool {
    let start = idx * t.config.chunk_size;
    let end = chunk_stop(t, idx);
    let guesses = assumptions(t.config.quote, t.config.escape);
    let rest = t.data.skip(start);
    let left = (end - start) as nat;
    &&& passes_meet::<S, O, A, I>(t, start, end, o.passes@, o.record_end)
    &&& starts_among(o.passes@, start, starts_in(t.config, find, guesses, rest, left, t.exact)) || (
    find == FindRecordStart::Strict && starts_among(
        o.passes@,
        start,
        starts_in(t.config, FindRecordStart::Lenient, guesses, rest, left, t.exact),
    ))
    &&& t.access.reach >= slack(t.exact) ==> passes_start(
        o.passes@,
        start,
        chunk_starts(t.config, find, guesses, rest, left, t.exact),
    )
}

/// Where chunk number `idx` ends: where the next one starts, or with the input.
pub open spec fn chunk_stop<A, I>(t: Task<A, I>, idx: int) -> int {
    if (idx + 1) * t.config.chunk_size <= t.data.len() {
        (idx + 1) * t.config.chunk_size
    } else {
        t.data.len() as int
    }
}

/// The task of parsing the input behind `ctx` with `parser`.
pub open spec fn task_of<P: ChunkParser, C: IoContext, A, I>(
    parser: P,
    ctx: C,
    acc: A,
    init: I,
) -> Task<A, I> {
    Task {
        config: parser.dialect(),
        data: ctx.data(),
        access: Access { reach: ctx.reach(), most: ctx.most() },
        exact: P::exact(),
        acc,
        init,
    }
}

/// The task of parsing `input` with `parser`.
pub open spec fn input_task<P: ChunkParser, IN: Input, A, I>(
    parser: P,
    input: IN,
    acc: A,
    init: I,
) -> Task<A, I> {
    Task {
        config: parser.dialect(),
        data: input.data(),
        access: Access { reach: input.reach(), most: input.most() },
        exact: P::exact(),
        acc,
        init,
    }
}

/// Process a single chunk: try assumptions in priority order, stop at first success.
pub fn process_chunk<
    S,
    O: Output + ?Sized,
    A: Accumulator<S, O>,
    I: Fn() -> S,
    P: ChunkParser,
    C: IoContext,
>(
    resolved: &ResolvedConfig,
    chunk_idx: usize,
    ctx: &mut C,
    parser: &P,
    guesses: &Vec<Assumption>,
    init: &I,
    acc: &A,
) -> (r: crate::Result<ChunkOutput<S>>)
    requires
        old(ctx).wf(),
        parser.dialect() == resolved.config,
        resolved.file_size == old(ctx).data().len(),
        chunk_idx * resolved.config.chunk_size <= resolved.file_size,
        task_fits::<S, O, A, I, P>(task_of(*parser, *old(ctx), *acc, *init), *parser, *acc, *init),
        guesses@ == assumptions(resolved.config.quote, resolved.config.escape),
    ensures
        final(ctx).wf(),
        final(ctx).data() == old(ctx).data(),
        final(ctx).reach() == old(ctx).reach(),
        final(ctx).most() == old(ctx).most(),
        ({
            let t = task_of(*parser, *old(ctx), *acc, *init);
            match r {
                Err(e) => t.access.reach == 0 && e is IO,
                Ok(o) => output_meets::<S, O, A, I>(
                    t,
                    resolved.mode(chunk_idx as int),
                    chunk_idx as int,
                    o,
                ),
            }
        }),
{
    let chunk_size: usize = resolved.config.chunk_size;
    let chunk_start: usize = chunk_idx * chunk_size;
    let chunk_end: usize = if resolved.file_size - chunk_start < chunk_size {
        resolved.file_size
    } else {
        chunk_start + chunk_size
    };
    assert((chunk_idx + 1) * chunk_size == chunk_start + chunk_size) by (nonlinear_arith)
        requires
            chunk_start == chunk_idx * chunk_size,
    ;
    let find = resolved.find_mode(chunk_idx);
    match try_assumptions::<S, O, A, I, P, C>(
        chunk_start,
        chunk_end,
        ctx,
        parser,
        guesses,
        init,
        acc,
        find,
    )? {
        TryOutcome::Resolved { passes, record_end } => Ok(ChunkOutput { passes, record_end }),
        TryOutcome::CleanNoBoundary => Ok(ChunkOutput { passes: Vec::new(), record_end: None }),
        TryOutcome::AllFailed => {
            if find != FindRecordStart::Strict {
                // No retry path, just forward the empty outcome.
                return Ok(ChunkOutput { passes: Vec::new(), record_end: None });
            }
            // Every strict assumption errored in the search for a record start.
            // The strict probe may be rejecting bytes that the user's
            // (lenient) dialect accepts — retry under lenient.
            match try_assumptions::<S, O, A, I, P, C>(
                chunk_start,
                chunk_end,
                ctx,
                parser,
                guesses,
                init,
                acc,
                FindRecordStart::Lenient,
            )? {
                TryOutcome::Resolved { passes, record_end } => Ok(
                    ChunkOutput { passes, record_end },
                ),
                // `CleanNoBoundary`: no boundary shows here. If a record starts
                // here all the same, the merge reparses from where the last
                // one ended.
                _ => Ok(ChunkOutput { passes: Vec::new(), record_end: None }),
            }
        },
    }
}

/// What parsing anew from the boundary at `start` comes to: a pass to the end
/// of the chunk, or of the input.
pub open spec fn redone<
    S,
    O: Output + ?Sized,
    A: Accumulator<S, O>,
    I: Fn() -> S,
>(t: Task<A, I>, start: int, chunk_end: int, r: crate::Result<(S, Option<usize>)>) -> bool {
    let end = if chunk_end <= t.data.len() {
        chunk_end
    } else {
        t.data.len() as int
    };
    start <= end ==> match r {
        Ok((state, record_end)) => pass_meets::<S, O, A, I>(
            t,
            start,
            end,
            start,
            Ok(state),
            record_end,
        ),
        Err(e) => pass_meets::<S, O, A, I>(t, start, end, start, Err(e), None) || (
        t.access.reach < slack(t.exact) && e is IO),
    }
}

/// Reparse one chunk from a known-correct record boundary. The end of its last
/// record is counted in the whole input.
pub fn reparse_chunk<
    S,
    O: Output + ?Sized,
    A: Accumulator<S, O>,
    I: Fn() -> S,
    P: ChunkParser,
    IN: Input,
>(
    record_start: usize,
    chunk_end: usize,
    file_size: usize,
    input: &IN,
    parser: &P,
    init: &I,
    acc: &A,
) -> (r: crate::Result<(S, Option<usize>)>)
    requires
        file_size == input.data().len(),
        task_fits::<S, O, A, I, P>(
            input_task(*parser, *input, *acc, *init),
            *parser,
            *acc,
            *init,
        ),
    ensures
        redone::<S, O, A, I>(
            input_task(*parser, *input, *acc, *init),
            record_start as int,
            chunk_end as int,
            r,
        ),
{
    let ghost t = input_task(*parser, *input, *acc, *init);
    let chunk_end: usize = if file_size < chunk_end {
        file_size
    } else {
        chunk_end
    };
    let record_start: usize = if chunk_end < record_start {
        chunk_end
    } else {
        record_start
    };
    let mut ctx = match input.context() {
        Ok(ctx) => ctx,
        Err(e) => {
            return Err(Error::IO(e));
        },
    };
    let mut reader = match ctx.chunk_reader(record_start, chunk_end) {
        Ok(reader) => reader,
        Err(e) => {
            return Err(Error::IO(e));
        },
    };
    let state = init();
    let ghost s0 = state;
    let ghost rest = t.data.skip(record_start as int);
    let ghost left = (chunk_end - record_start) as nat;
    let ghost c = t.config;
    let pr = parser.parse(
        &mut reader,
        state,
        Assumption::OutOfQuotes,
        acc,
        FindRecordStart::No,
    );
    let ghost whole = pr;
    let ghost far = rebased(whole, record_start as int);
    let ghost p = crate::parser::chunk::body_pass(rest, left, 0);
    proof {
        if whole.record_start is Some {
            body_rebase::<S, O, A>(
                whole,
                c,
                p,
                record_start as int,
                needs(c, p, t.exact) <= t.access.reach,
                t.access.most,
                t.exact,
                t.acc,
                s0,
            );
            assert(rest.skip(0) =~= rest);
            assert(pass_at(t.data, record_start as int, chunk_end as int) == (Pass {
                base: p.base + record_start,
                ..p
            }));
            assert(pass_meets::<S, O, A, I>(
                t,
                record_start as int,
                chunk_end as int,
                record_start as int,
                far.result,
                far.record_end,
            ));
        }
    }
    match pr.result {
        Ok(state) => {
            let record_end: Option<usize> = match pr.record_end {
                Some(o) => {
                    proof {
                        crate::parser::grammar::outcome_bounds(c, p.boundary, p.inp);
                    }
                    Some(record_start + o)
                },
                None => None,
            };
            Ok((state, record_end))
        },
        Err(e) => Err(e.with_base(record_start)),
    }
}

/// Where the records of an input start: behind the header, if there is one. That
/// is the first record boundary.
pub open spec fn header_end(c: Config, data: Seq<u8>) -> Option<Found> {
    if c.has_headers {
        header_search(c, data, data.len())
    } else {
        Some(Found::Start(0))
    }
}

/// What parsing an input chunk by chunk comes to: the outputs of all chunks,
/// merged from the end of the header on. That is what one pass over the input comes
/// to. A header that the dialect turns down is reported; where the header is
/// all there is, there are no states.
pub open spec fn chunked<
    S,
    O: Output + ?Sized,
    A: Accumulator<S, O>,
    I: Fn() -> S,
>(
    t: Task<A, I>,
    outputs: Seq<ChunkOutput<S>>,
    m: core::result::Result<Seq<S>, Error>,
) -> bool {
    &&& outputs_meet::<S, O, A, I>(t, outputs)
    &&& forall|i: int|
        0 <= i < outputs.len() ==> output_meets::<S, O, A, I>(
            t,
            find_mode_of(t.config.has_headers, i),
            i,
            #[trigger] outputs[i],
        )
    &&& match header_end(t.config, t.data) {
        Some(Found::Start(r0)) => {
            &&& 0 <= r0 <= t.data.len()
            &&& merges(
                t.config.chunk_size as int,
                t.data.len() as int,
                outputs,
                |a: int, b: int, x: crate::Result<(S, Option<usize>)>|
                    redone::<S, O, A, I>(t, a, b, x),
                0,
                r0,
                seq![],
                m,
            )
            &&& in_order::<S, O, A, I>(t, r0, m)
        },
        Some(Found::Rejected(i)) => m == Err::<Seq<S>, Error>(
            Error::InvalidQuote { position: Position { byte_offset: i as usize } },
        ),
        None => m == Ok::<Seq<S>, Error>(seq![]),
    }
}

/// Chunks that were parsed each on its own, on whatever thread and in whatever
/// order, make a parse of the input once they are merged.
pub proof fn chunks_make_a_parse<
    S,
    O: Output + ?Sized,
    A: Accumulator<S, O>,
    I: Fn() -> S,
>(
    t: Task<A, I>,
    outputs: Seq<ChunkOutput<S>>,
    m: core::result::Result<Seq<S>, Error>,
)
    requires
        t.config.chunk_size > 0,
        outputs.len() > 0,
        (outputs.len() - 1) * t.config.chunk_size < t.data.len() <= outputs.len()
            * t.config.chunk_size,
        t.data.len() <= usize::MAX,
        O::textual() ==> t.config.ascii(),
        forall|i: int|
            0 <= i < outputs.len() ==> output_meets::<S, O, A, I>(
                t,
                find_mode_of(t.config.has_headers, i),
                i,
                #[trigger] outputs[i],
            ),
        match header_end(t.config, t.data) {
            Some(Found::Start(r0)) => merges(
                t.config.chunk_size as int,
                t.data.len() as int,
                outputs,
                |a: int, b: int, x: crate::Result<(S, Option<usize>)>|
                    redone::<S, O, A, I>(t, a, b, x),
                0,
                r0,
                seq![],
                m,
            ),
            Some(Found::Rejected(i)) => m == Err::<Seq<S>, Error>(
                Error::InvalidQuote { position: Position { byte_offset: i as usize } },
            ),
            None => m == Ok::<Seq<S>, Error>(seq![]),
        },
    ensures
        chunked::<S, O, A, I>(t, outputs, m),
{
    let size = t.config.chunk_size as int;
    assert forall|i: int| 0 <= i < outputs.len() implies passes_meet::<S, O, A, I>(
        t,
        i * size,
        chunk_stop(t, i),
        (#[trigger] outputs[i]).passes@,
        outputs[i].record_end,
    ) by {
        assert(output_meets::<S, O, A, I>(t, find_mode_of(t.config.has_headers, i), i, outputs[i]));
    }
    assert(outputs_meet::<S, O, A, I>(t, outputs));
    if let Some(Found::Start(r0)) = header_end(t.config, t.data) {
        if t.config.has_headers {
            search_bounds(t.config, Probe::Off, State::RecordStart, t.data, t.data.len());
        }
        chunked_parse_is_sequential::<S, O, A, I>(t, r0, outputs, m);
    }
}

/// Where chunk 0 shows a boundary, that is where the records start.
pub proof fn first_chunk_shows<
    S,
    O: Output + ?Sized,
    A: Accumulator<S, O>,
    I: Fn() -> S,
>(t: Task<A, I>, o: ChunkOutput<S>)
    requires
        output_meets::<S, O, A, I>(t, find_mode_of(t.config.has_headers, 0), 0, o),
        o.passes@.len() > 0,
    ensures
        header_end(t.config, t.data) == Some(Found::Start(o.passes@[0].record_start as int)),
{
    let c = t.config;
    let find = find_mode_of(c.has_headers, 0);
    let guesses = assumptions(c.quote, c.escape);
    let rest = t.data.skip(0);
    assert(0 * c.chunk_size == 0) by (nonlinear_arith);
    assert(rest =~= t.data);
    let left = chunk_stop(t, 0) as nat;
    let x = o.passes@[0].record_start as int;
    let starts = starts_in(c, find, guesses, rest, left, t.exact);
    assert(starts.contains(o.passes@[0].record_start - 0));
    start_is_found(c, find, guesses, rest, left, t.exact, x);
    if c.has_headers {
        search_stopped(
            c,
            Probe::Off,
            State::RecordStart,
            t.data,
            in_chunk(t.data, left),
            t.data.len(),
        );
    }
}

/// A boundary that a chunk shows is found under one of the assumptions.
proof fn start_is_found(
    c: Config,
    find: FindRecordStart,
    guesses: Seq<Assumption>,
    rest: Seq<u8>,
    left: nat,
    exact: bool,
    x: int,
)
    requires
        starts_in(c, find, guesses, rest, left, exact).contains(x),
    ensures
        exists|a: Assumption|
            #[trigger] first_record(c, find, a, rest, left, exact) == Some(Found::Start(x)),
    decreases guesses.len(),
{
    if guesses.len() > 0 {
        let before = starts_in(c, find, guesses.drop_last(), rest, left, exact);
        let all = starts_in(c, find, guesses, rest, left, exact);
        let stop = first_record(c, find, guesses.last(), rest, left, exact);
        let i = choose|i: int| 0 <= i < all.len() && all[i] == x;
        if i < before.len() {
            assert(before[i] == x);
            start_is_found(c, find, guesses.drop_last(), rest, left, exact, x);
        } else {
            assert(stop == Some(Found::Start(x)));
        }
    }
}

/// Where the records of the input start. That is `shown`, if chunk 0 shows a
/// boundary; a header that goes on behind chunk 0 is read to its end.
pub fn first_boundary<P: ChunkParser, C: IoContext>(
    parser: &P,
    file_size: usize,
    ctx: &mut C,
    shown: Option<usize>,
) -> (r: crate::Result<Option<usize>>)
    requires
        parser.wf(),
        old(ctx).wf(),
        file_size == old(ctx).data().len(),
        shown matches Some(i) ==> header_end(parser.dialect(), old(ctx).data()) == Some(
            Found::Start(i as int),
        ),
    ensures
        final(ctx).wf(),
        final(ctx).data() == old(ctx).data(),
        final(ctx).reach() == old(ctx).reach(),
        final(ctx).most() == old(ctx).most(),
        match r {
            Ok(Some(i)) => header_end(parser.dialect(), old(ctx).data()) == Some(
                Found::Start(i as int),
            ),
            Ok(None) => header_end(parser.dialect(), old(ctx).data()) is None,
            Err(e) => {
                ||| header_end(parser.dialect(), old(ctx).data()) matches Some(Found::Rejected(i))
                    && e == (Error::InvalidQuote { position: Position { byte_offset: i as usize } })
                ||| old(ctx).reach() < slack(P::exact()) && e is IO
            },
        },
{
    if shown.is_some() {
        return Ok(shown);
    }
    if !parser.config().has_headers {
        return Ok(Some(0));
    }
    let mut reader = lifted(ctx.chunk_reader(0, file_size))?;
    proof {
        assert(old(ctx).data().skip(0) =~= old(ctx).data());
    }
    parser.scan_header_end(&mut reader)
}

/// How the search for a record start behaves for chunk `i`.
pub open spec fn find_mode_of(headers: bool, i: int) -> FindRecordStart {
    if i != 0 {
        FindRecordStart::Strict
    } else if headers {
        FindRecordStart::SkipHeaders
    } else {
        FindRecordStart::No
    }
}

/// What a parse chunk by chunk returns. Where nothing can be held it is refused. A
/// failure to read is the only other thing that can come out, and only where reading is
/// not sure to succeed.
pub open spec fn chunked_returns<
    S,
    O: Output + ?Sized,
    A: Accumulator<S, O>,
    I: Fn() -> S,
    M: FnOnce(Vec<S>) -> R,
    R,
>(t: Task<A, I>, merge: M, r: crate::Result<R>) -> bool {
    ||| t.access.most > 0 && exists|
        outputs: Seq<ChunkOutput<S>>,
        m: core::result::Result<Seq<S>, Error>,
    | #[trigger]
        chunked::<S, O, A, I>(t, outputs, m) && merge_returns(m, merge, r)
    ||| !sure(t) && (r matches Err(e) && e is IO)
}

/// A parse that is not sure of its slack is not sure of anything.
proof fn unsure<A, I>(t: Task<A, I>)
    requires
        t.access.reach < slack(t.exact),
    ensures
        !sure(t),
{
    if let Some(Found::Start(r0)) = header_end(t.config, t.data) {
        let p = pass_at(t.data, r0, t.data.len() as int + 1);
        widest_bounds(t.config, !t.exact, p.inp, 0, p.inp.len());
    }
}

/// The input is resolved: its size is known, and the chunks cover it.
pub open spec fn resolved_for<A, I>(resolved: ResolvedConfig, t: Task<A, I>) -> bool {
    &&& t.config == resolved.config
    &&& resolved.file_size == t.data.len()
    &&& resolved.config.chunk_size > 0
    &&& resolved.chunk_count > 0
    &&& (resolved.chunk_count - 1) * resolved.config.chunk_size < resolved.file_size
        <= resolved.chunk_count * resolved.config.chunk_size
}

/// Run the parse pipeline with a specific input and chunk parser, one chunk
/// after the other.
pub fn run_with<
    S,
    O: Output + ?Sized,
    A: Accumulator<S, O>,
    I: Fn() -> S,
    M: FnOnce(Vec<S>) -> R,
    R,
    P: ChunkParser,
    IN: Input,
>(resolved: &ResolvedConfig, parser: &P, input: &IN, init: I, acc: A, merge: M) -> (r:
    crate::Result<R>)
    requires
        resolved_for(*resolved, input_task(*parser, *input, acc, init)),
        task_fits::<S, O, A, I, P>(input_task(*parser, *input, acc, init), *parser, acc, init),
        forall|states: Vec<S>| call_requires(merge, (states,)),
    ensures
        chunked_returns::<S, O, A, I, M, R>(input_task(*parser, *input, acc, init), merge, r),
{
    proof {
        let t = input_task(*parser, *input, acc, init);
        if t.access.reach < slack(t.exact) {
            unsure(t);
        }
    }
    run_through::<S, O, A, I, M, R, P, IN>(
        resolved,
        parser,
        input,
        input.context(),
        init,
        acc,
        merge,
    )
}

/// Run the parse pipeline through a context that was asked for: if there is none,
/// what comes back is why; else the parse of the input behind it.
pub fn run_through<
    S,
    O: Output + ?Sized,
    A: Accumulator<S, O>,
    I: Fn() -> S,
    M: FnOnce(Vec<S>) -> R,
    R,
    P: ChunkParser,
    IN: Input,
>(
    resolved: &ResolvedConfig,
    parser: &P,
    input: &IN,
    context: std::io::Result<IN::Ctx>,
    init: I,
    acc: A,
    merge: M,
) -> (r: crate::Result<R>)
    requires
        resolved_for(*resolved, input_task(*parser, *input, acc, init)),
        task_fits::<S, O, A, I, P>(input_task(*parser, *input, acc, init), *parser, acc, init),
        forall|states: Vec<S>| call_requires(merge, (states,)),
        context matches Ok(ctx) ==> reads(ctx, *input),
    ensures
        match context {
            Ok(_) => chunked_returns::<S, O, A, I, M, R>(
                input_task(*parser, *input, acc, init),
                merge,
                r,
            ),
            Err(e) => r == Err::<R, Error>(Error::IO(e)),
        },
{
    let ghost t = input_task(*parser, *input, acc, init);
    let ghost size = resolved.config.chunk_size as int;
    let mut ctx = match context {
        Ok(ctx) => ctx,
        Err(e) => {
            return Err(Error::IO(e));
        },
    };
    // The speculation strategy — which assumptions to try and in what
    // order — lives here in the scheduler. Chunk parsers consume one
    // assumption at a time; they don't decide the policy.
    let guesses = assumptions_for_config(resolved.config.quote, resolved.config.escape);
    let chunk_count: usize = resolved.chunk_count;
    let mut results: Vec<WriteOnceSlot<ChunkOutput<S>>> = Vec::new();
    let mut idx: usize = 0;
    while idx < chunk_count
        invariant
            context is Ok,
            t == input_task(*parser, *input, acc, init),
            size == resolved.config.chunk_size,
            chunk_count == resolved.chunk_count,
            resolved_for(*resolved, t),
            task_fits::<S, O, A, I, P>(t, *parser, acc, init),
            guesses@ == assumptions(resolved.config.quote, resolved.config.escape),
            reads(ctx, *input),
            idx <= chunk_count,
            results@.len() == idx,
            filled::<S, O, A, I>(t, results@),
        decreases chunk_count - idx,
    {
        assert(idx * size <= (chunk_count - 1) * size) by (nonlinear_arith)
            requires
                idx <= chunk_count - 1,
                size > 0,
        ;
        let output = match process_chunk::<S, O, A, I, P, IN::Ctx>(
            resolved,
            idx,
            &mut ctx,
            parser,
            &guesses,
            &init,
            &acc,
        ) {
            Ok(output) => output,
            Err(e) => {
                proof {
                    unsure(t);
                }
                return Err(e);
            },
        };
        let mut slot = WriteOnceSlot::new();
        slot.set(output);
        let ghost before = results@;
        results.push(slot);
        proof {
            assert forall|i: int| 0 <= i < results@.len() implies (#[trigger] results@[i])@ is Some
                && output_meets::<S, O, A, I>(
                t,
                find_mode_of(t.config.has_headers, i),
                i,
                results@[i]@->0,
            ) by {
                if i < before.len() {
                    assert(results@[i] == before[i]);
                }
            }
        }
        idx += 1;
    }
    finish_chunks::<S, O, A, I, M, R, P, IN>(
        resolved,
        parser,
        input,
        &mut ctx,
        results,
        &init,
        &acc,
        merge,
    )
}

/// The context reads the input.
pub open spec fn reads<C: IoContext, IN: Input>(ctx: C, input: IN) -> bool {
    &&& ctx.wf()
    &&& ctx.data() == input.data()
    &&& ctx.reach() == input.reach()
    &&& ctx.most() == input.most()
    &&& input.most() > 0
}

/// Every slot holds what is found out about its chunk.
pub open spec fn filled<
    S,
    O: Output + ?Sized,
    A: Accumulator<S, O>,
    I: Fn() -> S,
>(t: Task<A, I>, results: Seq<WriteOnceSlot<ChunkOutput<S>>>) -> bool {
    forall|i: int|
        0 <= i < results.len() ==> (#[trigger] results[i])@ is Some && output_meets::<S, O, A, I>(
            t,
            find_mode_of(t.config.has_headers, i),
            i,
            results[i]@->0,
        )
}

/// Merge what was found out about all chunks, on whatever threads: from the end of the
/// header on, and with what was misled parsed anew.
pub fn finish_chunks<
    S,
    O: Output + ?Sized,
    A: Accumulator<S, O>,
    I: Fn() -> S,
    M: FnOnce(Vec<S>) -> R,
    R,
    P: ChunkParser,
    IN: Input,
>(
    resolved: &ResolvedConfig,
    parser: &P,
    input: &IN,
    ctx: &mut IN::Ctx,
    results: Vec<WriteOnceSlot<ChunkOutput<S>>>,
    init: &I,
    acc: &A,
    merge: M,
) -> (r: crate::Result<R>)
    requires
        resolved_for(*resolved, input_task(*parser, *input, *acc, *init)),
        task_fits::<S, O, A, I, P>(
            input_task(*parser, *input, *acc, *init),
            *parser,
            *acc,
            *init,
        ),
        forall|states: Vec<S>| call_requires(merge, (states,)),
        reads(*old(ctx), *input),
        results@.len() == resolved.chunk_count,
        filled::<S, O, A, I>(input_task(*parser, *input, *acc, *init), results@),
    ensures
        chunked_returns::<S, O, A, I, M, R>(input_task(*parser, *input, *acc, *init), merge, r),
{
    let ghost t = input_task(*parser, *input, *acc, *init);
    let ghost size = resolved.config.chunk_size as int;
    let file_size: usize = resolved.file_size;
    let ghost outputs = slotted(results@);
    let ghost merge_fn = merge;
    proof {
        assert forall|i: int| 0 <= i < outputs.len() implies output_meets::<S, O, A, I>(
            t,
            find_mode_of(t.config.has_headers, i),
            i,
            #[trigger] outputs[i],
        ) by {
            assert(results@[i]@ is Some);
        }
    }
    let mut shown: Option<usize> = None;
    if let Some(output) = results[0].get() {
        if output.passes.len() > 0 {
            proof {
                assert(outputs[0] == *output);
                first_chunk_shows::<S, O, A, I>(t, *output);
            }
            shown = Some(output.passes[0].record_start);
        }
    }
    let first: usize = match first_boundary::<P, IN::Ctx>(parser, file_size, ctx, shown) {
        Ok(Some(first)) => first,
        Ok(None) => {
            // Nothing but a header.
            proof {
                chunks_make_a_parse::<S, O, A, I>(t, outputs, Ok(seq![]));
            }
            return Ok(merge_nothing(merge));
        },
        Err(e) => {
            proof {
                if header_end(t.config, t.data) matches Some(Found::Rejected(_)) && !(e is IO) {
                    chunks_make_a_parse::<S, O, A, I>(t, outputs, Err(e));
                } else {
                    unsure(t);
                }
            }
            return Err(e);
        },
    };
    // Build a reparse callback for chunks where speculation fails.
    let reparse = |record_start: usize, chunk_end: usize| -> (again: crate::Result<
        (S, Option<usize>),
    >)
        ensures
            redone::<S, O, A, I>(
                input_task(*parser, *input, *acc, *init),
                record_start as int,
                chunk_end as int,
                again,
            ),
        {
            reparse_chunk::<S, O, A, I, P, IN>(
                record_start,
                chunk_end,
                file_size,
                input,
                parser,
                init,
                acc,
            )
        };
    let r = collect_and_merge(&resolved.config, file_size, first, results, merge, reparse);
    proof {
        let len = file_size as int;
        let m = choose|m: core::result::Result<Seq<S>, Error>|
            #[trigger] merged(size, len, outputs, reparse, first as int, m) && merge_returns(
                m,
                merge_fn,
                r,
            );
        merges_weaken(
            size,
            len,
            outputs,
            |a: int, b: int, x: crate::Result<(S, Option<usize>)>|
                call_ensures(reparse, (a as usize, b as usize), x),
            |a: int, b: int, x: crate::Result<(S, Option<usize>)>|
                redone::<S, O, A, I>(t, a, b, x),
            0,
            first as int,
            seq![],
            m,
        );
        chunks_make_a_parse::<S, O, A, I>(t, outputs, m);
    }
    r
}

/// What the caller's merge function makes of no states.
fn merge_nothing<S, M: FnOnce(Vec<S>) -> R, R>(merge: M) -> (r: R)
    requires
        forall|states: Vec<S>| call_requires(merge, (states,)),
    ensures
        merge_returns(Ok(Seq::<S>::empty()), merge, Ok(r)),
{
    let ghost merge_fn = merge;
    let states: Vec<S> = Vec::new();
    let ghost v = states;
    let out = merge(states);
    assert(v@ =~= seq![]);
    assert(call_ensures(merge_fn, (v,), out));
    out
}

} // verus!
