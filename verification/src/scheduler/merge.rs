//! Sequential merge: align record boundaries across chunks, select the correct
//! assumption for each, call merge.

use vstd::prelude::*;

use super::slot::WriteOnceSlot;
use crate::config::Config;
use crate::error::Error;

verus! {

/// Result of parsing a chunk under one assumption.
pub struct ResolvedPass<S> {
    /// Offset in the input of the first record's start.
    pub record_start: usize,
    /// The accumulated state, or the parse error.
    pub result: crate::Result<S>,
}

/// All speculative results for one chunk.
pub struct ChunkOutput<S> {
    /// Results per assumption, in priority order.
    pub passes: Vec<ResolvedPass<S>>,
    /// Offset in the input after the last complete record.
    pub record_end: Option<usize>,
}

/// The first pass that starts where the next record is expected.
pub open spec fn picked<S>(passes: Seq<ResolvedPass<S>>, next: int, j: int) -> bool {
    &&& 0 <= j < passes.len()
    &&& passes[j].record_start == next
    &&& forall|k: int| 0 <= k < j ==> (#[trigger] passes[k]).record_start != next
}

/// No pass starts where the next record is expected.
pub open spec fn none_picked<S>(passes: Seq<ResolvedPass<S>>, next: int) -> bool {
    forall|k: int| 0 <= k < passes.len() ==> (#[trigger] passes[k]).record_start != next
}

/// A chunk that ends at `end`, of an input of `len` bytes, has nothing to add: the
/// next record is expected behind it, or at its end if nothing was found in it.
pub open spec fn passed_over<S>(
    passes: Seq<ResolvedPass<S>>,
    next: int,
    end: int,
    len: int,
) -> bool {
    next > end || (passes.len() == 0 && (next >= end || next >= len))
}

/// Where the next record is expected after a pass: where its last record ends. A
/// pass without a record has read up to the end of the input.
pub open spec fn resumes_at(record_end: Option<usize>, len: int) -> int {
    match record_end {
        Some(e) => e as int,
        None => len,
    }
}

/// Where chunk number `i` ends.
pub open spec fn chunk_limit(i: int, chunk_size: int) -> int {
    if (i + 1) * chunk_size <= usize::MAX {
        (i + 1) * chunk_size
    } else {
        usize::MAX as int
    }
}

/// Merging the chunks of `len` bytes from number `i` on, the next record being
/// expected at `next` and the states so far being `states`, comes to `r`. A chunk
/// that has nothing to add is passed over; else the first pass that starts where
/// it should counts; and if there is none, the chunk is parsed anew from there.
pub open spec fn merges<S>(
    chunk_size: int,
    len: int,
    outputs: Seq<ChunkOutput<S>>,
    reparsed: spec_fn(int, int, crate::Result<(S, Option<usize>)>) -> bool,
    i: int,
    next: int,
    states: Seq<S>,
    r: core::result::Result<Seq<S>, Error>,
) -> bool
    decreases outputs.len() - i,
{
    if i < 0 || i >= outputs.len() {
        r == Ok::<Seq<S>, Error>(states)
    } else {
        let o = outputs[i];
        let end = chunk_limit(i, chunk_size);
        if passed_over(o.passes@, next, end, len) {
            merges(chunk_size, len, outputs, reparsed, i + 1, next, states, r)
        } else if none_picked(o.passes@, next) {
            exists|again: crate::Result<(S, Option<usize>)>| #[trigger]
                reparsed(next, end, again) && match again {
                    Err(e) => r == Err::<Seq<S>, Error>(e),
                    Ok((state, record_end)) => merges(
                        chunk_size,
                        len,
                        outputs,
                        reparsed,
                        i + 1,
                        resumes_at(record_end, len),
                        states.push(state),
                        r,
                    ),
                }
        } else {
            exists|j: int| #[trigger]
                picked(o.passes@, next, j) && match o.passes@[j].result {
                    Err(e) => r == Err::<Seq<S>, Error>(e),
                    Ok(state) => merges(
                        chunk_size,
                        len,
                        outputs,
                        reparsed,
                        i + 1,
                        resumes_at(o.record_end, len),
                        states.push(state),
                        r,
                    ),
                }
        }
    }
}

/// What is in the slots.
pub open spec fn slotted<S>(results: Seq<WriteOnceSlot<ChunkOutput<S>>>) -> Seq<ChunkOutput<S>> {
    results.map_values(|slot: WriteOnceSlot<ChunkOutput<S>>| slot@->0)
}

/// Merging all chunks of `len` bytes from the first record boundary on, with
/// `reparse` to parse one anew, comes to `m`.
pub open spec fn merged<S, F: Fn(usize, usize) -> crate::Result<(S, Option<usize>)>>(
    chunk_size: int,
    len: int,
    outputs: Seq<ChunkOutput<S>>,
    reparse: F,
    first: int,
    m: core::result::Result<Seq<S>, Error>,
) -> bool {
    merges(
        chunk_size,
        len,
        outputs,
        |a: int, b: int, x: crate::Result<(S, Option<usize>)>|
            call_ensures(reparse, (a as usize, b as usize), x),
        0,
        first,
        seq![],
        m,
    )
}

/// What merging the chunks returns: the first error, or what the caller's merge
/// function makes of the states.
pub open spec fn merge_returns<S, M: FnOnce(Vec<S>) -> R, R>(
    m: core::result::Result<Seq<S>, Error>,
    merge: M,
    r: crate::Result<R>,
) -> bool {
    match m {
        Err(e) => r == Err::<R, Error>(e),
        Ok(states) => exists|v: Vec<S>, out: R|
            #![trigger call_ensures(merge, (v,), out)]
            v@ == states && call_ensures(merge, (v,), out) && r == Ok::<R, Error>(out),
    }
}

/// The index of the first pass that starts where the next record is expected.
fn pick<S>(passes: &Vec<ResolvedPass<S>>, next: usize) -> (r: Option<usize>)
    ensures
        match r {
            Some(j) => picked(passes@, next as int, j as int),
            None => none_picked(passes@, next as int),
        },
{
    let mut j: usize = 0;
    while j < passes.len()
        invariant
            j <= passes@.len(),
            forall|k: int| 0 <= k < j ==> (#[trigger] passes@[k]).record_start != next,
        decreases passes@.len() - j,
    {
        if passes[j].record_start == next {
            return Some(j);
        }
        j += 1;
    }
    None
}

/// Sequential merge: align record boundaries across chunks,
/// select the correct assumption for each, call merge.
///
/// The input has `file_size` bytes, and its records start at `first`.
/// `reparse` parses a chunk anew, from a record boundary that is known, to the
/// chunk's end; it returns the state and where its last record ends.
#[verifier::loop_isolation(false)]
pub fn collect_and_merge<
    S,
    M: FnOnce(Vec<S>) -> R,
    R,
    F: Fn(usize, usize) -> crate::Result<(S, Option<usize>)>,
>(
    config: &Config,
    file_size: usize,
    first: usize,
    results: Vec<WriteOnceSlot<ChunkOutput<S>>>,
    merge: M,
    reparse: F,
) -> (r: crate::Result<R>)
    requires
        forall|i: int| 0 <= i < results@.len() ==> (#[trigger] results@[i])@ is Some,
        forall|a: usize, b: usize| call_requires(reparse, (a, b)),
        forall|states: Vec<S>| call_requires(merge, (states,)),
    ensures
        exists|m: core::result::Result<Seq<S>, Error>|
            #[trigger] merged(
                config.chunk_size as int,
                file_size as int,
                slotted(results@),
                reparse,
                first as int,
                m,
            ) && merge_returns(m, merge, r),
{
    let ghost size = config.chunk_size as int;
    let ghost len = file_size as int;
    let ghost outs = slotted(results@);
    let ghost again = |a: int, b: int, x: crate::Result<(S, Option<usize>)>|
        call_ensures(reparse, (a as usize, b as usize), x);
    let ghost count = results@.len();
    let ghost given = results@;
    let mut results = results;
    let mut queue: Vec<WriteOnceSlot<ChunkOutput<S>>> = Vec::new();
    while results.len() > 0
        invariant
            queue@.len() + results@.len() == count == given.len(),
            results@ == given.take(results@.len() as int),
            forall|k: int| 0 <= k < queue@.len() ==> #[trigger] queue@[k] == given[count - 1 - k],
        decreases results@.len(),
    {
        let ghost before = results@;
        if let Some(slot) = results.pop() {
            assert(results@ =~= given.take(results@.len() as int));
            queue.push(slot);
        }
    }
    let mut states: Vec<S> = Vec::new();
    let mut next_record: usize = first;
    let mut chunk_end: usize = 0;
    let ghost mut i: int = 0;
    proof {
        assert(0 * size == 0) by (nonlinear_arith);
    }
    while queue.len() > 0
        invariant
            size == config.chunk_size,
            len == file_size,
            outs == slotted(given),
            count == given.len(),
            i + queue@.len() == count,
            0 <= i,
            forall|k: int| 0 <= k < queue@.len() ==> #[trigger] queue@[k] == given[count - 1 - k],
            forall|k: int| 0 <= k < given.len() ==> (#[trigger] given[k])@ is Some,
            chunk_end == (if i * size <= usize::MAX {
                i * size
            } else {
                usize::MAX as int
            }),
            forall|a: usize, b: usize| call_requires(reparse, (a, b)),
            again == (|a: int, b: int, x: crate::Result<(S, Option<usize>)>|
                call_ensures(reparse, (a as usize, b as usize), x)),
            forall|m: core::result::Result<Seq<S>, Error>| #[trigger]
                merges(size, len, outs, again, i, next_record as int, states@, m) ==> merges(
                    size,
                    len,
                    outs,
                    again,
                    0,
                    first as int,
                    seq![],
                    m,
                ),
        decreases queue@.len(),
    {
        let slot = queue.pop().unwrap();
        assert(slot == given[i]);
        let output = slot.into_inner().unwrap();
        assert(outs[i] == output);
        chunk_end = chunk_end.saturating_add(config.chunk_size);
        proof {
            assert((i + 1) * size == i * size + size) by (nonlinear_arith);
            assert(i * size >= 0) by (nonlinear_arith)
                requires
                    i >= 0,
                    size >= 0,
            ;
            assert(chunk_end == chunk_limit(i, size));
            i = i + 1;
        }
        // Skip if the next record does not begin in this chunk. A chunk without
        // passes may still hold records, if the search was misled: it is skipped
        // only if it holds nothing from the next record on.
        let ghost before = states@;
        let ghost was = next_record as int;
        if next_record > chunk_end || (output.passes.len() == 0 && (next_record >= chunk_end
            || next_record >= file_size)) {
            assert forall|m: core::result::Result<Seq<S>, Error>| #[trigger]
                merges(size, len, outs, again, i, was, before, m) implies merges(
                size,
                len,
                outs,
                again,
                i - 1,
                was,
                before,
                m,
            ) by {}
            continue;
        }
        let ghost passes = output.passes@;
        assert(!passed_over(passes, was, chunk_limit(i - 1, size), len));
        // Find the pass whose record_start matches where we expect
        // the next record.
        match pick(&output.passes, next_record) {
            Some(pos) => {
                let ChunkOutput { passes: mut rest, record_end } = output;
                assert(rest@ == passes);
                let pass = rest.remove(pos);
                assert(pass == passes[pos as int]);
                assert(picked(passes, was, pos as int));
                assert(!none_picked(passes, was));
                // Propagate errors: if the selected assumption's parse
                // failed, that's the authoritative error for this chunk.
                match pass.result {
                    Ok(state) => {
                        states.push(state);
                        next_record = match record_end {
                            Some(e) => e,
                            None => file_size,
                        };
                        assert forall|m: core::result::Result<Seq<S>, Error>| #[trigger]
                            merges(size, len, outs, again, i, next_record as int, states@, m) implies merges(
                            size,
                            len,
                            outs,
                            again,
                            i - 1,
                            was,
                            before,
                            m,
                        ) by {
                            assert(picked(passes, was, pos as int));
                        }
                    },
                    Err(e) => {
                        let ghost m = Err::<Seq<S>, Error>(e);
                        assert(merges(size, len, outs, again, i - 1, was, before, m));
                        assert(merged(size, len, outs, reparse, first as int, m));
                        return Err(e);
                    },
                }
            },
            None => {
                // No assumption's record_start aligns. Speculation produced
                // a false positive, or nothing — reparse the chunk from the
                // known-correct record boundary.
                let redone = reparse(next_record, chunk_end);
                assert(again(was, chunk_limit(i - 1, size), redone));
                match redone {
                    Ok((state, record_end)) => {
                        states.push(state);
                        next_record = match record_end {
                            Some(e) => e,
                            None => file_size,
                        };
                        assert forall|m: core::result::Result<Seq<S>, Error>| #[trigger]
                            merges(size, len, outs, again, i, next_record as int, states@, m) implies merges(
                            size,
                            len,
                            outs,
                            again,
                            i - 1,
                            was,
                            before,
                            m,
                        ) by {
                            assert(again(was, chunk_limit(i - 1, size), redone));
                        }
                    },
                    Err(e) => {
                        let ghost m = Err::<Seq<S>, Error>(e);
                        assert(merges(size, len, outs, again, i - 1, was, before, m));
                        assert(merged(size, len, outs, reparse, first as int, m));
                        return Err(e);
                    },
                }
            },
        }
    }
    let ghost m = Ok::<Seq<S>, Error>(states@);
    assert(merges(size, len, outs, again, i, next_record as int, states@, m));
    assert(merged(size, len, outs, reparse, first as int, m));
    Ok(merge(states))
}

/// Merging adds no more than one state for each chunk, behind those that are there.
pub proof fn a_state_for_each_chunk_at_most<S>(
    chunk_size: int,
    len: int,
    outputs: Seq<ChunkOutput<S>>,
    reparsed: spec_fn(int, int, crate::Result<(S, Option<usize>)>) -> bool,
    i: int,
    next: int,
    states: Seq<S>,
    all: Seq<S>,
)
    requires
        0 <= i <= outputs.len(),
        merges(chunk_size, len, outputs, reparsed, i, next, states, Ok(all)),
    ensures
        states.len() <= all.len() <= states.len() + outputs.len() - i,
        forall|k: int| 0 <= k < states.len() ==> #[trigger] all[k] == states[k],
    decreases outputs.len() - i,
{
    if i < outputs.len() {
        let o = outputs[i];
        let end = chunk_limit(i, chunk_size);
        if passed_over(o.passes@, next, end, len) {
            a_state_for_each_chunk_at_most(
                chunk_size,
                len,
                outputs,
                reparsed,
                i + 1,
                next,
                states,
                all,
            );
        } else if none_picked(o.passes@, next) {
            let again = choose|again: crate::Result<(S, Option<usize>)>| #[trigger]
                reparsed(next, end, again) && match again {
                    Err(e) => false,
                    Ok((state, record_end)) => merges(
                        chunk_size,
                        len,
                        outputs,
                        reparsed,
                        i + 1,
                        resumes_at(record_end, len),
                        states.push(state),
                        Ok(all),
                    ),
                };
            let (state, record_end) = again->Ok_0;
            a_state_for_each_chunk_at_most(
                chunk_size,
                len,
                outputs,
                reparsed,
                i + 1,
                resumes_at(record_end, len),
                states.push(state),
                all,
            );
            added(states, state, all);
        } else {
            let j = choose|j: int| #[trigger]
                picked(o.passes@, next, j) && match o.passes@[j].result {
                    Err(e) => false,
                    Ok(state) => merges(
                        chunk_size,
                        len,
                        outputs,
                        reparsed,
                        i + 1,
                        resumes_at(o.record_end, len),
                        states.push(state),
                        Ok(all),
                    ),
                };
            let state = o.passes@[j].result->Ok_0;
            a_state_for_each_chunk_at_most(
                chunk_size,
                len,
                outputs,
                reparsed,
                i + 1,
                resumes_at(o.record_end, len),
                states.push(state),
                all,
            );
            added(states, state, all);
        }
    }
}

/// What starts with some states and one more starts with those states.
proof fn added<S>(states: Seq<S>, state: S, all: Seq<S>)
    requires
        all.len() > states.len(),
        forall|k: int| 0 <= k < states.push(state).len() ==> #[trigger] all[k] == states.push(state)[k],
    ensures
        forall|k: int| 0 <= k < states.len() ==> #[trigger] all[k] == states[k],
{
    assert forall|k: int| 0 <= k < states.len() implies #[trigger] all[k] == states[k] by {
        assert(states.push(state)[k] == states[k]);
    }
}

} // verus!
