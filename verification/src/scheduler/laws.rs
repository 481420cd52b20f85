//! Laws of whole parses: what comes out is a matter of the dialect and the input,
//! not of where the chunks are cut, how the input is read, or which parser reads it.

use vstd::prelude::*;
use vstd::utf8::valid_utf8;

use super::dispatch::{
    file_access, file_backend, parse_returns, resolved_task, slice_access, slice_backend,
    stream_access, stream_returns, stream_ring, streamed,
};
use super::merge::{a_state_for_each_chunk_at_most, merge_returns, ChunkOutput};
use super::order::{
    covers, fails_in_order, folded, in_order, joined, one_fold, one_pass, refused_in_order,
    taken_in_order, text_to,
};
use super::resolve::{
    backends_are_those_asked_for, default_ring, io_backend_of, io_buffer_limit_of,
    parser_backend_of, ring_with_share, share_of, shares_are_even, ResolvedConfig,
};
use super::{
    chunk_starts, chunked, chunked_returns, find_mode_of, header_end, needs_in_all, pass_at,
    redone, starts_in, sure, Task,
};
use crate::config::{distinct_bytes, Config, IoBackend, ParserBackend, QuoteHandling};
use crate::error::{Error, Position, UserError};
use crate::io::ringbuf::buf::{doubled_up, grown, ring_size};
use crate::io::ringbuf::settings::RingBufSettings;
use crate::io::{ring_room, Access, FileInput, Source};
use crate::parser::chunk::{
    assumptions, body_pass, entry, first_record, some_refused, strict_probe_of, taken, toggled,
    Assumption, FindRecordStart, PassResult,
};
use crate::parser::dfa::table::{cell, State};
use crate::parser::driver::{needs, not_text, read_to, reported, slack, starts, Pass};
use crate::parser::fold::{
    answers, content, fits_in, folds, presentable, refuses, Accumulator,
};
use crate::parser::grammar::{
    advance, arity_ok, beyond, bounded_scan, open_since, outcome, outcome_bounds, scan, scan_bounds,
    scan_halted,
    search, search_bounds, stretch, widest, widest_behind, widest_bounds, widest_within, Failure,
    Found, Halt, Probe, Record,
};
use crate::parser::laws::{
    in_shape, lines, rejected_fails, rows, search_is_scan, stops_first,
    the_header_is_the_first_record, without_quotes_lines_are_split, written,
    written_records_read_back,
};
use crate::parser::output::{longest_text, Output};
use crate::parser::spelling::{
    a_header_ends_with_its_line, a_header_fails_as_a_record_does, all_fit, all_read_as, apart, cut_as,
    fits, is_plain, kept, line_end, line_fits, lines_of, numbers_fit, plain_lines_are_cut, reads_as,
    record_text, records_of, text, what_is_spelled_is_read, Line, Part,
};
use crate::parser::text::cut_at_ascii;
use crate::sys::Host;

verus! {

/// The two configurations spell fields and records the same way. They may differ in
/// whether there is a header, and in what runs the parse.
pub open spec fn same_dialect(c: Config, d: Config) -> bool {
    &&& c.delimiter == d.delimiter
    &&& c.terminator == d.terminator
    &&& c.quote == d.quote
    &&& c.escape == d.escape
    &&& c.comment == d.comment
    &&& c.quote_handling == d.quote_handling
    &&& c.field_count == d.field_count
    &&& c.trim == d.trim
}

/// A pass reads by the dialect alone.
proof fn same_scan(c: Config, d: Config, boundary: int, inp: Seq<u8>, n: nat)
    requires
        same_dialect(c, d),
    ensures
        scan(c, boundary, inp, n) == scan(d, boundary, inp, n),
    decreases n,
{
    if n > 0 {
        same_scan(c, d, boundary, inp, (n - 1) as nat);
        let s = scan(c, boundary, inp, (n - 1) as nat);
        assert(cell(c, s.state, inp[n - 1]) == cell(d, s.state, inp[n - 1]));
    }
}

/// A search goes by the dialect alone.
proof fn same_search(c: Config, d: Config, from: State, inp: Seq<u8>, n: nat)
    requires
        same_dialect(c, d),
    ensures
        search(c, Probe::Off, from, inp, n) == search(d, Probe::Off, from, inp, n),
    decreases n,
{
    if n > 0 {
        same_search(c, d, from, inp, (n - 1) as nat);
        let s = search(c, Probe::Off, from, inp, (n - 1) as nat);
        assert(cell(c, s.state, inp[n - 1]) == cell(d, s.state, inp[n - 1]));
    }
}

/// The records that an input holds behind its header, if the dialect can read all
/// of it.
pub open spec fn yielded(c: Config, data: Seq<u8>) -> Option<Seq<Record>> {
    match header_end(c, data) {
        Some(Found::Start(r0)) => {
            let m = outcome(c, beyond(data.skip(r0)), data.skip(r0));
            if m.end is Ok {
                Some(m.records)
            } else {
                None
            }
        },
        Some(Found::Rejected(_)) => None,
        None => Some(seq![]),
    }
}

/// A record is as wide under the one configuration as under the other.
proof fn same_widest(c: Config, d: Config, runs: bool, inp: Seq<u8>, n: nat)
    requires
        same_dialect(c, d),
        n <= inp.len(),
    ensures
        open_since(c, runs, inp, n) == open_since(d, runs, inp, n),
        widest(c, runs, inp, n) == widest(d, runs, inp, n),
    decreases n,
{
    if n > 0 {
        same_widest(c, d, runs, inp, (n - 1) as nat);
        same_scan(c, d, beyond(inp), inp, (n - 1) as nat);
        assert(stretch(c, runs, inp, n) == stretch(d, runs, inp, n));
    }
}

/// What an input yields, and what room it needs, is a matter of the dialect: threads,
/// buffers and the size of the chunks do not change it.
pub proof fn settings_do_not_matter(c: Config, d: Config, data: Seq<u8>)
    requires
        same_dialect(c, d),
        c.has_headers == d.has_headers,
    ensures
        header_end(c, data) == header_end(d, data),
        yielded(c, data) == yielded(d, data),
        forall|exact: bool| #[trigger]
            needs_in_all(c, data, exact) == needs_in_all(d, data, exact),
        header_end(c, data) matches Some(Found::Start(r0)) ==> 0 <= r0 <= data.len() && outcome(
            c,
            beyond(data.skip(r0)),
            data.skip(r0),
        ) == outcome(d, beyond(data.skip(r0)), data.skip(r0)),
{
    same_search(c, d, State::RecordStart, data, data.len());
    if c.has_headers {
        search_bounds(c, Probe::Off, State::RecordStart, data, data.len());
    }
    if let Some(Found::Start(r0)) = header_end(c, data) {
        let rest = data.skip(r0);
        same_scan(c, d, beyond(rest), rest, rest.len());
        same_widest(c, d, true, rest, rest.len());
        same_widest(c, d, false, rest, rest.len());
    }
}

/// What is written in quotes is what is parsed: whatever bytes the fields hold, the
/// written records are yielded, and no others.
pub proof fn written_records_are_yielded(c: Config, records: Seq<Record>)
    requires
        !c.has_headers,
        c.distinct(),
        c.doubled(),
        forall|r: int|
            0 <= r < records.len() ==> (#[trigger] records[r]).len() > 0 && arity_ok(
                c,
                records[r].len(),
            ) && in_shape(c, records[r]),
    ensures
        yielded(c, written(c, records)) == Some(records),
{
    let data = written(c, records);
    written_records_read_back(c, records);
    assert(data.skip(0) =~= data);
}

/// With quoting off, an input yields its lines, without the blank ones, cut at their
/// delimiters.
pub proof fn unquoted_lines_are_yielded(c: Config, data: Seq<u8>)
    requires
        !c.has_headers,
        c.quote is None,
        c.comment is None,
        c.field_count is None,
        !c.terminator.ends(c.delimiter),
    ensures
        yielded(c, data) == Some(rows(c, lines(c, data))),
{
    without_quotes_lines_are_split(c, data);
    assert(data.skip(0) =~= data);
}

/// What follows the header is text, if it has to be.
pub open spec fn text_ahead<O: Output + ?Sized>(c: Config, data: Seq<u8>) -> bool {
    O::textual() ==> (header_end(c, data) matches Some(Found::Start(r0)) ==> valid_utf8(
        data.skip(r0),
    ))
}

/// Of an input that is text, what follows the header is text.
pub proof fn text_is_text_ahead<O: Output + ?Sized>(c: Config, data: Seq<u8>)
    requires
        c.ascii(),
        valid_utf8(data),
    ensures
        text_ahead::<O>(c, data),
{
    if let Some(Found::Start(r0)) = header_end(c, data) {
        if c.has_headers {
            search_bounds(c, Probe::Off, State::RecordStart, data, data.len());
            assert(c.controls()[1] == Some(c.terminator.pair().0));
            assert(c.controls()[2] == c.terminator.pair().1);
            cut_at_ascii(data, r0);
        } else {
            assert(data.skip(0) =~= data);
        }
    }
}

/// What parsing an input comes to, in terms of one pass over it from where its records
/// start. A header that the dialect turns down is reported; where the header is all
/// there is, nothing is folded. A failure to read is the only other thing, and only where
/// reading is not sure to succeed.
pub open spec fn comes_of<
    S,
    O: Output + ?Sized,
    A: Accumulator<S, O>,
    I: FnOnce() -> S,
>(t: Task<A, I>, m: core::result::Result<Seq<S>, Error>) -> bool {
    ||| match header_end(t.config, t.data) {
        Some(Found::Start(r0)) => 0 <= r0 <= t.data.len() && in_order::<S, O, A, I>(t, r0, m),
        Some(Found::Rejected(i)) => m == Err::<Seq<S>, Error>(
            Error::InvalidQuote { position: Position { byte_offset: i as usize } },
        ),
        None => m matches Ok(states) && taken_as::<S, O, A, I>(t, states, seq![]),
    }
    ||| !sure(t) && (m matches Err(e) && e is IO)
}

/// The states fold just `records`, in order.
pub open spec fn taken_as<
    S,
    O: Output + ?Sized,
    A: Accumulator<S, O>,
    I: FnOnce() -> S,
>(t: Task<A, I>, states: Seq<S>, records: Seq<Record>) -> bool {
    exists|logs: Seq<Seq<Record>>| #[trigger]
        folded::<S, O, A, I>(t, states, logs) && joined(logs) == records
}

/// What a parse chunk by chunk comes to.
pub proof fn chunks_come_to<
    S,
    O: Output + ?Sized,
    A: Accumulator<S, O>,
    I: Fn() -> S,
>(
    t: Task<A, I>,
    outputs: Seq<ChunkOutput<S>>,
    m: core::result::Result<Seq<S>, Error>,
)
    requires
        chunked::<S, O, A, I>(t, outputs, m),
    ensures
        comes_of::<S, O, A, I>(t, m),
{
    if header_end(t.config, t.data) is None {
        let none: Seq<Seq<Record>> = seq![];
        assert(joined(none) =~= seq![]);
        assert(folded::<S, O, A, I>(t, Seq::<S>::empty(), none));
        assert(m->Ok_0 == Seq::<S>::empty());
    }
}

/// What a parse comes to is what the input yields. The states fold just the records
/// that the input yields, in order; if they have to be text, all that follows the
/// header is; and no record holds more than can be held. It fails if the input cannot
/// be read in the dialect; and if it can, then only because the accumulator turns a
/// record down, or the text is not valid, or reading fails.
pub proof fn a_parse_is_what_the_input_yields<
    S,
    O: Output + ?Sized,
    A: Accumulator<S, O>,
    I: FnOnce() -> S,
>(t: Task<A, I>, m: core::result::Result<Seq<S>, Error>)
    requires
        comes_of::<S, O, A, I>(t, m),
    ensures
        m matches Ok(states) ==> {
            &&& yielded(t.config, t.data) is Some
            &&& taken_as::<S, O, A, I>(t, states, yielded(t.config, t.data)->0)
            &&& fits_in(yielded(t.config, t.data)->0, t.access.most)
            &&& text_ahead::<O>(t.config, t.data)
        },
        yielded(t.config, t.data) matches Some(records) ==> (m matches Err(e) ==> {
            ||| refused_in_order::<S, O, A, I>(t, records, e)
            ||| not_text::<O>(one_pass(t, header_end(t.config, t.data)->0->Start_0), e)
            ||| !sure(t) && e is IO
        }),
{
    if let Some(Found::Start(r0)) = header_end(t.config, t.data) {
        if let Ok(states) = m {
            assert(covers::<S, O, A, I>(t, r0, states));
            let whole = one_pass(t, r0).meaning(t.config);
            let logs = choose|logs: Seq<Seq<Record>>| #[trigger]
                folded::<S, O, A, I>(t, states, logs) && whole.end is Ok && joined(logs)
                    == whole.records && text_to::<O, A, I>(t, r0, t.data.len() as int) && fits_in(
                    whole.records,
                    t.access.most,
                );
            assert(t.data.subrange(r0, t.data.len() as int) =~= t.data.skip(r0));
            assert(folded::<S, O, A, I>(t, states, logs));
        }
    }
}

/// The task of parsing `data` as `c` says, with the given access.
pub open spec fn plain_task<A, I>(
    c: Config,
    data: Seq<u8>,
    access: Access,
    acc: A,
    init: I,
) -> Task<A, I> {
    Task { config: c, data, access, exact: is_exact(c), acc, init }
}

/// The parser that reads the dialect reports failures exactly.
pub open spec fn is_exact(c: Config) -> bool {
    parser_backend_of(c) == Ok::<ParserBackend, Seq<char>>(ParserBackend::Dfa)
}

/// Reading is sure to succeed, whatever is resolved.
pub open spec fn surely_read(
    c: Config,
    host: Host,
    data: Seq<u8>,
    backend: spec_fn(ResolvedConfig) -> IoBackend,
    access: spec_fn(IoBackend) -> Access,
) -> bool {
    forall|v: ResolvedConfig| #[trigger]
        v.resolves(c, host, data.len() as usize) && v.io_backend == backend(v) ==> needs_in_all(
            c,
            data,
            is_exact(c),
        ) <= access(v.io_backend).reach
}

/// What holds of a task holds of one that differs in the settings.
proof fn same_task<
    S,
    O: Output + ?Sized,
    A: Accumulator<S, O>,
    I: FnOnce() -> S,
>(t: Task<A, I>, u: Task<A, I>, m: core::result::Result<Seq<S>, Error>)
    requires
        t == (Task { config: t.config, ..u }),
        same_dialect(t.config, u.config),
        t.config.has_headers == u.config.has_headers,
        comes_of::<S, O, A, I>(t, m),
    ensures
        comes_of::<S, O, A, I>(u, m),
        sure(t) == sure(u),
{
    settings_do_not_matter(t.config, u.config, t.data);
    match m {
        Ok(states) => {
            if let Some(Found::Start(r0)) = header_end(t.config, t.data) {
                let p = one_pass(t, r0);
                assert(p.meaning(t.config) == p.meaning(u.config));
                assert(covers::<S, O, A, I>(t, r0, states));
                let whole = p.meaning(t.config);
                let logs = choose|logs: Seq<Seq<Record>>| #[trigger]
                    folded::<S, O, A, I>(t, states, logs) && whole.end is Ok && joined(logs)
                        == whole.records && text_to::<O, A, I>(t, r0, t.data.len() as int) && fits_in(
                        whole.records,
                        t.access.most,
                    );
                same_folds::<S, O, A, I>(t, u, states, logs);
                assert(folded::<S, O, A, I>(u, states, logs));
                assert(p == one_pass(u, r0));
                assert(text_to::<O, A, I>(u, r0, u.data.len() as int));
                assert(covers::<S, O, A, I>(u, r0, states));
            } else if header_end(t.config, t.data) is None {
                let logs = choose|logs: Seq<Seq<Record>>| #[trigger]
                    folded::<S, O, A, I>(t, states, logs) && joined(logs) == Seq::<Record>::empty();
                same_folds::<S, O, A, I>(t, u, states, logs);
                assert(folded::<S, O, A, I>(u, states, logs));
                assert(taken_as::<S, O, A, I>(u, states, seq![]));
            }
        },
        Err(e) => {
            if let Some(Found::Start(r0)) = header_end(t.config, t.data) {
                let p = one_pass(t, r0);
                assert(p.meaning(t.config) == p.meaning(u.config));
                let records = p.meaning(t.config).records;
                if taken_in_order::<S, O, A, I>(t, records) {
                    let (states, logs) = choose|states: Seq<S>, logs: Seq<Seq<Record>>| #[trigger]
                        folded::<S, O, A, I>(t, states, logs) && joined(logs) == records;
                    same_folds::<S, O, A, I>(t, u, states, logs);
                    assert(folded::<S, O, A, I>(u, states, logs));
                }
                if refused_in_order::<S, O, A, I>(t, records, e) {
                    let (states, logs, s0, shift) = choose|
                        states: Seq<S>,
                        logs: Seq<Seq<Record>>,
                        s0: S,
                        shift: int,
                    |
                        0 <= shift <= t.data.len() && starts(joined(logs), records) && call_ensures(
                            t.init,
                            (),
                            s0,
                        ) && #[trigger] folded::<S, O, A, I>(t, states, logs)
                            && #[trigger] some_refused::<S, O, A>(
                            t.acc,
                            s0,
                            records.skip(joined(logs).len() as int),
                            shift,
                            e,
                        );
                    same_folds::<S, O, A, I>(t, u, states, logs);
                    assert(folded::<S, O, A, I>(u, states, logs));
                    assert(refused_in_order::<S, O, A, I>(u, records, e));
                }
                assert(p == one_pass(u, r0));
                assert(reported(t.exact, t.config, p, e) ==> reported(u.exact, u.config, p, e));
                assert(needs(t.config, p, t.exact) == needs(u.config, p, u.exact)) by {
                    assert(needs_in_all(t.config, t.data, t.exact) == needs_in_all(
                        u.config,
                        u.data,
                        u.exact,
                    ));
                }
                assert(taken_in_order::<S, O, A, I>(t, records) ==> taken_in_order::<S, O, A, I>(
                    u,
                    records,
                ));
                assert(fails_in_order::<S, O, A, I>(t, r0, e) ==> fails_in_order::<S, O, A, I>(
                    u,
                    r0,
                    e,
                ));
            }
        },
    }
}

/// What states fold is a matter of the functions of the caller.
proof fn same_folds<
    S,
    O: Output + ?Sized,
    A: Accumulator<S, O>,
    I: FnOnce() -> S,
>(t: Task<A, I>, u: Task<A, I>, states: Seq<S>, logs: Seq<Seq<Record>>)
    requires
        t.acc == u.acc,
        t.init == u.init,
        folded::<S, O, A, I>(t, states, logs),
    ensures
        folded::<S, O, A, I>(u, states, logs),
{
    assert forall|k: int| 0 <= k < states.len() implies #[trigger] one_fold::<S, O, A, I>(
        u,
        logs[k],
        states[k],
    ) by {
        assert(one_fold::<S, O, A, I>(t, logs[k], states[k]));
    }
}

/// What parsing a slice or a file comes to, and with which access it was read: that is
/// what is returned, merged, or a failure to read where that is not sure to succeed.
pub proof fn a_parse_comes_to<
    S,
    O: Output + ?Sized,
    A: Accumulator<S, O>,
    I: Fn() -> S,
    M: FnOnce(Vec<S>) -> R,
    R,
>(
    c: Config,
    host: Host,
    data: Seq<u8>,
    backend: spec_fn(ResolvedConfig) -> IoBackend,
    access: spec_fn(IoBackend) -> Access,
    acc: A,
    init: I,
    merge: M,
    r: crate::Result<R>,
) -> (came: (Access, core::result::Result<Seq<S>, Error>))
    requires
        parse_returns::<S, O, A, I, M, R>(c, host, data, backend, access, acc, init, merge, r),
        parser_backend_of(c) is Ok,
    ensures
        ({
            let t = plain_task(c, data, came.0, acc, init);
            &&& comes_of::<S, O, A, I>(t, came.1)
            &&& merge_returns(came.1, merge, r)
            &&& data.len() > 0 ==> exists|v: ResolvedConfig| #[trigger]
                v.resolves(c, host, data.len() as usize) && v.io_backend == backend(v) && came.0
                    == access(v.io_backend)
            &&& surely_read(c, host, data, backend, access) ==> sure(t)
        }),
{
    if data.len() == 0 {
        let a = Access { reach: usize::MAX as nat, most: 0 };
        let t = plain_task(c, data, a, acc, init);
        let none: Seq<Seq<Record>> = seq![];
        assert(data.skip(0) =~= data);
        assert(joined(none) =~= seq![]);
        assert(folded::<S, O, A, I>(t, Seq::<S>::empty(), none));
        assert(data.subrange(0, 0) =~= seq![]);
        assert(valid_utf8(Seq::<u8>::empty()));
        if !c.has_headers {
            assert(one_pass(t, 0).meaning(c).records =~= seq![]);
            assert(covers::<S, O, A, I>(t, 0, Seq::<S>::empty()));
            assert(needs_in_all(c, data, t.exact) <= 131);
        }
        (a, Ok(seq![]))
    } else {
        let v = choose|v: ResolvedConfig| #[trigger]
            v.resolves(c, host, data.len() as usize) && v.io_backend == backend(v)
                && chunked_returns::<S, O, A, I, M, R>(
                resolved_task(v, data, access(v.io_backend), acc, init),
                merge,
                r,
            );
        let t = resolved_task(v, data, access(v.io_backend), acc, init);
        let u = plain_task(c, data, access(v.io_backend), acc, init);
        settings_do_not_matter(c, v.config, data);
        if exists|outputs: Seq<ChunkOutput<S>>, m: core::result::Result<Seq<S>, Error>| #[trigger]
            chunked::<S, O, A, I>(t, outputs, m) && merge_returns(m, merge, r) {
            let (outputs, m) = choose|
                outputs: Seq<ChunkOutput<S>>,
                m: core::result::Result<Seq<S>, Error>,
            | #[trigger]
                chunked::<S, O, A, I>(t, outputs, m) && merge_returns(m, merge, r);
            chunks_come_to::<S, O, A, I>(t, outputs, m);
            same_task::<S, O, A, I>(t, u, m);
            (access(v.io_backend), m)
        } else {
            (access(v.io_backend), Err(r->Err_0))
        }
    }
}

/// What parsing a stream comes to: that is what is returned, merged.
pub proof fn a_stream_comes_to<
    S,
    O: Output + ?Sized,
    A: Accumulator<S, O>,
    I: FnOnce() -> S,
    M: FnOnce(Vec<S>) -> R,
    R,
>(c: Config, data: Seq<u8>, access: Access, acc: A, init: I, merge: M, r: crate::Result<R>) -> (m:
    core::result::Result<Seq<S>, Error>)
    requires
        stream_returns::<S, O, A, I, M, R>(c, data, access, acc, init, merge, r),
        parser_backend_of(c) is Ok,
        access.reach <= access.most,
        data.len() < usize::MAX,
    ensures
        comes_of::<S, O, A, I>(plain_task(c, data, access, acc, init), m),
        merge_returns(m, merge, r),
{
    let t = plain_task(c, data, access, acc, init);
    let backend = parser_backend_of(c)->Ok_0;
    if access.most == 0 {
        unsure_without_room(c, data, t.exact);
        Err(r->Err_0)
    } else {
        let (s0, pass) = choose|s0: S, pass: PassResult<S>|
            call_ensures(init, (), s0) && #[trigger] streamed::<S, O, A>(
                c,
                backend,
                data,
                access,
                acc,
                s0,
                pass,
            ) && match pass.result {
                Ok(state) => merge_returns(Ok(seq![state]), merge, r),
                Err(e) => r == Err::<R, Error>(e),
            };
        assert(backend == ParserBackend::Dfa <==> t.exact);
        a_stream_is_one_pass::<S, O, A, I>(t, backend, s0, pass);
        match pass.result {
            Ok(state) => Ok(seq![state]),
            Err(e) => Err(e),
        }
    }
}

/// Without any room, reading is not sure to succeed.
proof fn unsure_without_room(c: Config, data: Seq<u8>, exact: bool)
    ensures
        needs_in_all(c, data, exact) >= slack(exact),
{
    if let Some(Found::Start(r0)) = header_end(c, data) {
        let rest = data.skip(r0);
        widest_bounds(c, !exact, rest, 0, rest.len());
    }
}

/// A stream is read as one pass: the state that comes out folds the records that the
/// input yields, or what is reported is what one pass fails with.
pub proof fn a_stream_is_one_pass<
    S,
    O: Output + ?Sized,
    A: Accumulator<S, O>,
    I: FnOnce() -> S,
>(t: Task<A, I>, backend: ParserBackend, s0: S, pass: PassResult<S>)
    requires
        streamed::<S, O, A>(t.config, backend, t.data, t.access, t.acc, s0, pass),
        t.exact == (backend == ParserBackend::Dfa),
        call_ensures(t.init, (), s0),
        t.data.len() < usize::MAX,
    ensures
        comes_of::<S, O, A, I>(
            t,
            match pass.result {
                Ok(state) => Ok(seq![state]),
                Err(e) => Err(e),
            },
        ),
{
    let c = t.config;
    let data = t.data;
    unsure_without_room(c, data, t.exact);
    let none: Seq<Seq<Record>> = seq![];
    assert(joined(none) =~= seq![]);
    assert(folded::<S, O, A, I>(t, Seq::<S>::empty(), none));
    if let Some(start) = pass.record_start {
        let r0 = start as int;
        let p = body_pass(data, usize::MAX as nat, r0);
        let q = one_pass(t, r0);
        let records = q.meaning(c).records;
        bounded_scan(c, p.boundary, p.inp, p.inp.len());
        scan_bounds(c, p.boundary, p.inp, p.inp.len());
        assert(p.meaning(c) == q.meaning(c));
        let logs = seq![records];
        assert(logs.drop_last() =~= none);
        assert(joined(logs) =~= records);
        match pass.result {
            Ok(state) => {
                assert(one_fold::<S, O, A, I>(t, records, state));
                assert(folded::<S, O, A, I>(t, seq![state], logs));
                assert(read_to(c, p) == p.inp.len());
                assert(p.inp.take(p.inp.len() as int) =~= data.subrange(r0, data.len() as int));
                assert(covers::<S, O, A, I>(t, r0, seq![state]));
            },
            Err(e) => {
                if reported(t.exact, c, p, e) && (t.exact ==> taken::<S, O, A>(
                    t.acc,
                    s0,
                    records,
                )) {
                    if t.exact {
                        let state = choose|state: S| #[trigger]
                            folds::<S, O, A>(t.acc, s0, records, state);
                        assert(one_fold::<S, O, A, I>(t, records, state));
                        assert(folded::<S, O, A, I>(t, seq![state], logs));
                        assert(taken_in_order::<S, O, A, I>(t, records));
                    }
                    assert(reported(t.exact, c, q, e));
                } else if some_refused::<S, O, A>(t.acc, s0, records, 0, e) {
                    assert(records.skip(0) =~= records);
                    assert(records.take(0) =~= seq![]);
                    assert(refused_in_order::<S, O, A, I>(t, records, e));
                }
            },
        }
    } else if let Ok(state) = pass.result {
        let logs = seq![Seq::<Record>::empty()];
        assert(logs.drop_last() =~= none);
        assert(joined(logs) =~= seq![]);
        assert(one_fold::<S, O, A, I>(t, Seq::<Record>::empty(), state));
        assert(folded::<S, O, A, I>(t, seq![state], logs));
    }
}

/// The accumulator turns none of the records down.
pub open spec fn takes_each<S, O: Output + ?Sized, A: Accumulator<S, O>>(
    acc: A,
    records: Seq<Record>,
) -> bool {
    forall|before: S, k: int, e: UserError|
        0 <= k < records.len() ==> !#[trigger] answers::<S, O, A>(acc, before, records[k], Err(e))
}

/// Where nothing is turned down, no error is the accumulator's.
proof fn none_is_refused<
    S,
    O: Output + ?Sized,
    A: Accumulator<S, O>,
    I: FnOnce() -> S,
>(t: Task<A, I>, records: Seq<Record>, e: Error)
    requires
        takes_each::<S, O, A>(t.acc, records),
    ensures
        !refused_in_order::<S, O, A, I>(t, records, e),
{
    assert forall|s0: S, a: int, shift: int|
        0 <= a <= records.len() implies !#[trigger] some_refused::<S, O, A>(
        t.acc,
        s0,
        records.skip(a),
        shift,
        e,
    ) by {
        let rest = records.skip(a);
        assert forall|n: int, own: Error| 0 <= n < rest.len() implies !#[trigger] refuses::<
            S,
            O,
            A,
        >(t.acc, s0, rest.take(n), rest[n], own) by {
            assert(rest[n] == records[a + n]);
        }
    }
}

/// The records that one pass over an input hands out behind its header.
pub open spec fn records_ahead(c: Config, data: Seq<u8>) -> Seq<Record> {
    match header_end(c, data) {
        Some(Found::Start(r0)) => outcome(c, beyond(data.skip(r0)), data.skip(r0)).records,
        _ => seq![],
    }
}

/// The dialect cannot read what follows the header.
pub open spec fn fails_ahead(c: Config, data: Seq<u8>) -> bool {
    header_end(c, data) matches Some(Found::Start(r0)) && outcome(
        c,
        beyond(data.skip(r0)),
        data.skip(r0),
    ).end is Err
}

/// Nothing but the input decides what a parse comes to: reading is sure to succeed, the
/// accumulator turns no record down, and not more than one thing is wrong with the
/// input, the spelling or the text.
pub open spec fn decided<S, O: Output + ?Sized, A: Accumulator<S, O>, I>(t: Task<A, I>) -> bool {
    &&& sure(t)
    &&& takes_each::<S, O, A>(t.acc, records_ahead(t.config, t.data))
    &&& fails_ahead(t.config, t.data) ==> text_ahead::<O>(t.config, t.data)
}

/// What a parse comes to that nothing but the input decides: what the dialect turns
/// down is reported, and so is the first byte that is not part of valid text; else the
/// states fold all records.
pub open spec fn settled<
    S,
    O: Output + ?Sized,
    A: Accumulator<S, O>,
    I: FnOnce() -> S,
>(t: Task<A, I>, m: core::result::Result<Seq<S>, Error>) -> bool {
    match header_end(t.config, t.data) {
        Some(Found::Rejected(i)) => m == Err::<Seq<S>, Error>(
            Error::InvalidQuote { position: Position { byte_offset: i as usize } },
        ),
        None => m matches Ok(states) && taken_as::<S, O, A, I>(t, states, seq![]),
        Some(Found::Start(r0)) => if fails_ahead(t.config, t.data) {
            m matches Err(e) && reported(t.exact, t.config, one_pass(t, r0), e)
        } else if text_ahead::<O>(t.config, t.data) {
            m matches Ok(states) && taken_as::<S, O, A, I>(
                t,
                states,
                records_ahead(t.config, t.data),
            )
        } else {
            m matches Err(e) && not_text::<O>(one_pass(t, r0), e)
        },
    }
}

/// Where nothing but the input decides, what a parse comes to is settled.
pub proof fn the_input_decides<
    S,
    O: Output + ?Sized,
    A: Accumulator<S, O>,
    I: FnOnce() -> S,
>(t: Task<A, I>, m: core::result::Result<Seq<S>, Error>)
    requires
        comes_of::<S, O, A, I>(t, m),
        decided::<S, O, A, I>(t),
    ensures
        settled::<S, O, A, I>(t, m),
{
    a_parse_is_what_the_input_yields::<S, O, A, I>(t, m);
    if let Some(Found::Start(r0)) = header_end(t.config, t.data) {
        assert(one_pass(t, r0).meaning(t.config).records == records_ahead(t.config, t.data));
        if let Err(e) = m {
            none_is_refused::<S, O, A, I>(t, records_ahead(t.config, t.data), e);
        }
    }
}

/// What a parse of a slice or a file comes to is settled where nothing but the input
/// decides.
pub proof fn a_parse_settles<
    S,
    O: Output + ?Sized,
    A: Accumulator<S, O>,
    I: Fn() -> S,
    M: FnOnce(Vec<S>) -> R,
    R,
>(
    c: Config,
    host: Host,
    data: Seq<u8>,
    backend: spec_fn(ResolvedConfig) -> IoBackend,
    access: spec_fn(IoBackend) -> Access,
    acc: A,
    init: I,
    merge: M,
    r: crate::Result<R>,
) -> (came: (Access, core::result::Result<Seq<S>, Error>))
    requires
        parse_returns::<S, O, A, I, M, R>(c, host, data, backend, access, acc, init, merge, r),
        parser_backend_of(c) is Ok,
        surely_read(c, host, data, backend, access),
        takes_each::<S, O, A>(acc, records_ahead(c, data)),
        fails_ahead(c, data) ==> text_ahead::<O>(c, data),
    ensures
        settled::<S, O, A, I>(plain_task(c, data, came.0, acc, init), came.1),
        merge_returns(came.1, merge, r),
{
    let came = a_parse_comes_to::<S, O, A, I, M, R>(
        c,
        host,
        data,
        backend,
        access,
        acc,
        init,
        merge,
        r,
    );
    the_input_decides::<S, O, A, I>(plain_task(c, data, came.0, acc, init), came.1);
    came
}

/// A parse that succeeds has read the whole input: the states that are merged fold
/// the records that the input yields, each once and in order. An input that cannot be
/// read in the dialect is never parsed with success.
pub proof fn a_parse_reads_the_whole_input<
    S,
    O: Output + ?Sized,
    A: Accumulator<S, O>,
    I: Fn() -> S,
    M: FnOnce(Vec<S>) -> R,
    R,
>(
    c: Config,
    host: Host,
    data: Seq<u8>,
    backend: spec_fn(ResolvedConfig) -> IoBackend,
    access: spec_fn(IoBackend) -> Access,
    acc: A,
    init: I,
    merge: M,
    r: crate::Result<R>,
)
    requires
        parse_returns::<S, O, A, I, M, R>(c, host, data, backend, access, acc, init, merge, r),
    ensures
        r matches Ok(out) ==> exists|a: Access, states: Vec<S>|
            yielded(c, data) is Some && #[trigger] taken_as::<S, O, A, I>(
                plain_task(c, data, a, acc, init),
                states@,
                yielded(c, data)->0,
            ) && call_ensures(merge, (states,), out),
        r is Ok ==> text_ahead::<O>(c, data),
        yielded(c, data) is None ==> r is Err,
{
    if parser_backend_of(c) is Ok {
        let (a, m) = a_parse_comes_to::<S, O, A, I, M, R>(
            c,
            host,
            data,
            backend,
            access,
            acc,
            init,
            merge,
            r,
        );
        let t = plain_task(c, data, a, acc, init);
        a_parse_is_what_the_input_yields::<S, O, A, I>(t, m);
        if let Ok(out) = r {
            let found = m->Ok_0;
            let states = choose|states: Vec<S>|
                states@ == found && #[trigger] call_ensures(merge, (states,), out);
            assert(taken_as::<S, O, A, I>(t, states@, yielded(c, data)->0));
        }
    }
}

/// A record that holds more than can be held is refused: there is no parse with success.
pub proof fn too_large_a_record_is_refused<
    S,
    O: Output + ?Sized,
    A: Accumulator<S, O>,
    I: Fn() -> S,
    M: FnOnce(Vec<S>) -> R,
    R,
>(
    c: Config,
    host: Host,
    data: Seq<u8>,
    backend: spec_fn(ResolvedConfig) -> IoBackend,
    access: spec_fn(IoBackend) -> Access,
    acc: A,
    init: I,
    merge: M,
    r: crate::Result<R>,
    n: nat,
    k: int,
)
    requires
        parse_returns::<S, O, A, I, M, R>(c, host, data, backend, access, acc, init, merge, r),
        yielded(c, data) matches Some(records) && 0 <= k < records.len() && content(
            records[k],
        ) > n,
        forall|v: ResolvedConfig| #[trigger]
            v.resolves(c, host, data.len() as usize) && v.io_backend == backend(v) ==> access(
                v.io_backend,
            ).most <= n,
    ensures
        r is Err,
{
    if parser_backend_of(c) is Ok {
        let (a, m) = a_parse_comes_to::<S, O, A, I, M, R>(
            c,
            host,
            data,
            backend,
            access,
            acc,
            init,
            merge,
            r,
        );
        a_parse_is_what_the_input_yields::<S, O, A, I>(plain_task(c, data, a, acc, init), m);
        let records = yielded(c, data)->0;
        if m is Ok {
            assert(content(records[k]) <= a.most);
        }
    }
}

/// Success is owed. A parse succeeds if a parser can read the dialect, the dialect can
/// read the input, the input is text where it has to be, the accumulator turns none of its
/// records down, and reading is sure to succeed.
pub proof fn a_parse_succeeds<
    S,
    O: Output + ?Sized,
    A: Accumulator<S, O>,
    I: Fn() -> S,
    M: FnOnce(Vec<S>) -> R,
    R,
>(
    c: Config,
    host: Host,
    data: Seq<u8>,
    backend: spec_fn(ResolvedConfig) -> IoBackend,
    access: spec_fn(IoBackend) -> Access,
    acc: A,
    init: I,
    merge: M,
    r: crate::Result<R>,
)
    requires
        parse_returns::<S, O, A, I, M, R>(c, host, data, backend, access, acc, init, merge, r),
        parser_backend_of(c) is Ok,
        surely_read(c, host, data, backend, access),
        yielded(c, data) is Some,
        text_ahead::<O>(c, data),
        takes_each::<S, O, A>(acc, yielded(c, data)->0),
    ensures
        r is Ok,
{
    assert(records_ahead(c, data) == yielded(c, data)->0);
    let came = a_parse_settles::<S, O, A, I, M, R>(
        c,
        host,
        data,
        backend,
        access,
        acc,
        init,
        merge,
        r,
    );
}

/// What the dialect cannot read is reported: by the table-driven parser the very failure
/// that one pass over the input means, by the bitmask parser the first that it
/// comes across.
pub proof fn a_failure_is_reported<
    S,
    O: Output + ?Sized,
    A: Accumulator<S, O>,
    I: Fn() -> S,
    M: FnOnce(Vec<S>) -> R,
    R,
>(
    c: Config,
    host: Host,
    data: Seq<u8>,
    backend: spec_fn(ResolvedConfig) -> IoBackend,
    access: spec_fn(IoBackend) -> Access,
    acc: A,
    init: I,
    merge: M,
    r: crate::Result<R>,
    r0: int,
)
    requires
        parse_returns::<S, O, A, I, M, R>(c, host, data, backend, access, acc, init, merge, r),
        parser_backend_of(c) is Ok,
        surely_read(c, host, data, backend, access),
        header_end(c, data) == Some(Found::Start(r0)),
        fails_ahead(c, data),
        text_ahead::<O>(c, data),
        takes_each::<S, O, A>(acc, records_ahead(c, data)),
    ensures
        r matches Err(e) && reported(is_exact(c), c, pass_ahead(data, r0), e),
{
    let came = a_parse_settles::<S, O, A, I, M, R>(
        c,
        host,
        data,
        backend,
        access,
        acc,
        init,
        merge,
        r,
    );
}

/// The one pass over what follows the header.
pub open spec fn pass_ahead(data: Seq<u8>, r0: int) -> Pass {
    pass_at(data, r0, data.len() as int + 1)
}

/// Invalid text is reported where it is. A parse of text that nothing else is wrong
/// with fails at the first byte behind the header that is not part of valid text.
pub proof fn invalid_text_is_reported<
    S,
    O: Output + ?Sized,
    A: Accumulator<S, O>,
    I: Fn() -> S,
    M: FnOnce(Vec<S>) -> R,
    R,
>(
    c: Config,
    host: Host,
    data: Seq<u8>,
    backend: spec_fn(ResolvedConfig) -> IoBackend,
    access: spec_fn(IoBackend) -> Access,
    acc: A,
    init: I,
    merge: M,
    r: crate::Result<R>,
)
    requires
        parse_returns::<S, O, A, I, M, R>(c, host, data, backend, access, acc, init, merge, r),
        parser_backend_of(c) is Ok,
        surely_read(c, host, data, backend, access),
        yielded(c, data) is Some,
        !text_ahead::<O>(c, data),
        takes_each::<S, O, A>(acc, yielded(c, data)->0),
    ensures
        r matches Err(Error::Utf8 { position }) && ({
            let r0 = header_end(c, data)->0->Start_0;
            longest_text(data.skip(r0), position.byte_offset - r0)
        }),
{
    assert(records_ahead(c, data) == yielded(c, data)->0);
    let came = a_parse_settles::<S, O, A, I, M, R>(
        c,
        host,
        data,
        backend,
        access,
        acc,
        init,
        merge,
        r,
    );
}

/// Two reports of the same input say the same. Where both are exact they are the same
/// report; else a record that has too many fields may be counted to different ends, and
/// one that the input ends inside of may be reported for either.
pub open spec fn same_report(c: Config, r0: int, data: Seq<u8>, exact: bool, e: Error, f: Error) -> bool {
    ||| e == f
    ||| !exact && match outcome(c, beyond(data.skip(r0)), data.skip(r0)).end {
        Err(Failure::Arity { .. }) => {
            &&& e matches Error::NumberOfFields { expected, position, .. } && f
                matches Error::NumberOfFields { expected: other, position: there, .. } && expected
                == other && position == there
        },
        Err(Failure::Unclosed { .. }) => true,
        _ => false,
    }
}

/// Two parses of the same input agree: both succeed, and their states fold the same
/// records in the same order; or both fail, and say the same.
pub open spec fn agree<
    S,
    O: Output + ?Sized,
    A: Accumulator<S, O>,
    I: FnOnce() -> S,
>(
    t: Task<A, I>,
    m: core::result::Result<Seq<S>, Error>,
    u: Task<A, I>,
    n: core::result::Result<Seq<S>, Error>,
) -> bool {
    match (m, n) {
        (Ok(a), Ok(b)) => {
            let records = records_ahead(t.config, t.data);
            taken_as::<S, O, A, I>(t, a, records) && taken_as::<S, O, A, I>(u, b, records)
        },
        (Err(e), Err(f)) => same_report(
            t.config,
            header_end(t.config, t.data)->0->Start_0,
            t.data,
            t.exact && u.exact,
            e,
            f,
        ),
        _ => false,
    }
}

/// What is settled of the same input in the same dialect agrees.
pub proof fn settled_parses_agree<
    S,
    O: Output + ?Sized,
    A: Accumulator<S, O>,
    I: FnOnce() -> S,
>(
    t: Task<A, I>,
    m: core::result::Result<Seq<S>, Error>,
    u: Task<A, I>,
    n: core::result::Result<Seq<S>, Error>,
)
    requires
        t.data == u.data,
        same_dialect(t.config, u.config),
        t.config.has_headers == u.config.has_headers,
        settled::<S, O, A, I>(t, m),
        settled::<S, O, A, I>(u, n),
    ensures
        agree::<S, O, A, I>(t, m, u, n),
{
    settings_do_not_matter(t.config, u.config, t.data);
    if let Some(Found::Start(r0)) = header_end(t.config, t.data) {
        let p = one_pass(t, r0);
        assert(p == one_pass(u, r0));
        assert(p.meaning(t.config) == p.meaning(u.config));
        if !fails_ahead(t.config, t.data) && !text_ahead::<O>(t.config, t.data) {
            let x = m->Err_0->Utf8_position.byte_offset - r0;
            let y = n->Err_0->Utf8_position.byte_offset - r0;
            assert(x == y) by {
                if x < y {
                    assert(!valid_utf8(p.inp.take(y)));
                }
                if y < x {
                    assert(!valid_utf8(p.inp.take(x)));
                }
            }
        }
    }
}

/// Where the chunks are cut changes nothing, and neither does which parser reads
/// them: two parses of the same input in the same dialect agree, where nothing but the
/// input decides.
pub proof fn chunking_changes_nothing<
    S,
    O: Output + ?Sized,
    A: Accumulator<S, O>,
    I: Fn() -> S,
>(
    t: Task<A, I>,
    u: Task<A, I>,
    one: (Seq<ChunkOutput<S>>, core::result::Result<Seq<S>, Error>),
    other: (Seq<ChunkOutput<S>>, core::result::Result<Seq<S>, Error>),
)
    requires
        t.data == u.data,
        same_dialect(t.config, u.config),
        t.config.has_headers == u.config.has_headers,
        decided::<S, O, A, I>(t),
        decided::<S, O, A, I>(u),
        chunked::<S, O, A, I>(t, one.0, one.1),
        chunked::<S, O, A, I>(u, other.0, other.1),
    ensures
        agree::<S, O, A, I>(t, one.1, u, other.1),
{
    chunks_come_to::<S, O, A, I>(t, one.0, one.1);
    chunks_come_to::<S, O, A, I>(u, other.0, other.1);
    the_input_decides::<S, O, A, I>(t, one.1);
    the_input_decides::<S, O, A, I>(u, other.1);
    settled_parses_agree::<S, O, A, I>(t, one.1, u, other.1);
}

/// What came back of two parses is what two parses come to that agree.
pub open spec fn results_agree<
    S,
    O: Output + ?Sized,
    A: Accumulator<S, O>,
    I: FnOnce() -> S,
    M: FnOnce(Vec<S>) -> R,
    R,
>(
    c: Config,
    d: Config,
    data: Seq<u8>,
    acc: A,
    init: I,
    merge: M,
    r: crate::Result<R>,
    q: crate::Result<R>,
) -> bool {
    exists|
        a: Access,
        m: core::result::Result<Seq<S>, Error>,
        b: Access,
        n: core::result::Result<Seq<S>, Error>,
    | #[trigger]
        agree::<S, O, A, I>(
            plain_task(c, data, a, acc, init),
            m,
            plain_task(d, data, b, acc, init),
            n,
        ) && merge_returns(m, merge, r) && merge_returns(n, merge, q)
}

/// Two parses of the same bytes in the same dialect agree, whether of a slice or of a
/// file, whatever the I/O backend, the size of the chunks and the number of threads.
pub proof fn parses_agree<
    S,
    O: Output + ?Sized,
    A: Accumulator<S, O>,
    I: Fn() -> S,
    M: FnOnce(Vec<S>) -> R,
    R,
>(
    c: Config,
    d: Config,
    host: Host,
    other: Host,
    data: Seq<u8>,
    backends: (spec_fn(ResolvedConfig) -> IoBackend, spec_fn(ResolvedConfig) -> IoBackend),
    accesses: (spec_fn(IoBackend) -> Access, spec_fn(IoBackend) -> Access),
    acc: A,
    init: I,
    merge: M,
    r: crate::Result<R>,
    q: crate::Result<R>,
)
    requires
        parse_returns::<S, O, A, I, M, R>(
            c,
            host,
            data,
            backends.0,
            accesses.0,
            acc,
            init,
            merge,
            r,
        ),
        parse_returns::<S, O, A, I, M, R>(
            d,
            other,
            data,
            backends.1,
            accesses.1,
            acc,
            init,
            merge,
            q,
        ),
        same_dialect(c, d),
        c.has_headers == d.has_headers,
        parser_backend_of(c) is Ok,
        parser_backend_of(d) is Ok,
        surely_read(c, host, data, backends.0, accesses.0),
        surely_read(d, other, data, backends.1, accesses.1),
        takes_each::<S, O, A>(acc, records_ahead(c, data)),
        fails_ahead(c, data) ==> text_ahead::<O>(c, data),
    ensures
        results_agree::<S, O, A, I, M, R>(c, d, data, acc, init, merge, r, q),
{
    settings_do_not_matter(c, d, data);
    let one = a_parse_settles::<S, O, A, I, M, R>(
        c,
        host,
        data,
        backends.0,
        accesses.0,
        acc,
        init,
        merge,
        r,
    );
    let two = a_parse_settles::<S, O, A, I, M, R>(
        d,
        other,
        data,
        backends.1,
        accesses.1,
        acc,
        init,
        merge,
        q,
    );
    settled_parses_agree::<S, O, A, I>(
        plain_task(c, data, one.0, acc, init),
        one.1,
        plain_task(d, data, two.0, acc, init),
        two.1,
    );
}

/// What a parse of a stream comes to is settled where nothing but the input decides.
pub proof fn a_stream_settles<
    S,
    O: Output + ?Sized,
    A: Accumulator<S, O>,
    I: FnOnce() -> S,
    M: FnOnce(Vec<S>) -> R,
    R,
>(c: Config, data: Seq<u8>, access: Access, acc: A, init: I, merge: M, r: crate::Result<R>) -> (m:
    core::result::Result<Seq<S>, Error>)
    requires
        stream_returns::<S, O, A, I, M, R>(c, data, access, acc, init, merge, r),
        parser_backend_of(c) is Ok,
        data.len() < usize::MAX,
        needs_in_all(c, data, is_exact(c)) <= access.reach <= access.most,
        takes_each::<S, O, A>(acc, records_ahead(c, data)),
        fails_ahead(c, data) ==> text_ahead::<O>(c, data),
    ensures
        settled::<S, O, A, I>(plain_task(c, data, access, acc, init), m),
        merge_returns(m, merge, r),
{
    let m = a_stream_comes_to::<S, O, A, I, M, R>(c, data, access, acc, init, merge, r);
    the_input_decides::<S, O, A, I>(plain_task(c, data, access, acc, init), m);
    m
}

/// Success is owed for a stream as it is for a slice or a file.
pub proof fn a_stream_succeeds<
    S,
    O: Output + ?Sized,
    A: Accumulator<S, O>,
    I: FnOnce() -> S,
    M: FnOnce(Vec<S>) -> R,
    R,
>(c: Config, data: Seq<u8>, access: Access, acc: A, init: I, merge: M, r: crate::Result<R>)
    requires
        stream_returns::<S, O, A, I, M, R>(c, data, access, acc, init, merge, r),
        parser_backend_of(c) is Ok,
        data.len() < usize::MAX,
        needs_in_all(c, data, is_exact(c)) <= access.reach <= access.most,
        yielded(c, data) is Some,
        text_ahead::<O>(c, data),
        takes_each::<S, O, A>(acc, yielded(c, data)->0),
    ensures
        r is Ok,
{
    assert(records_ahead(c, data) == yielded(c, data)->0);
    let m = a_stream_settles::<S, O, A, I, M, R>(c, data, access, acc, init, merge, r);
}

/// A stream and a slice or file of the same bytes agree.
pub proof fn a_stream_agrees<
    S,
    O: Output + ?Sized,
    A: Accumulator<S, O>,
    I: Fn() -> S,
    M: FnOnce(Vec<S>) -> R,
    R,
>(
    c: Config,
    host: Host,
    data: Seq<u8>,
    backend: spec_fn(ResolvedConfig) -> IoBackend,
    access: spec_fn(IoBackend) -> Access,
    acc: A,
    init: I,
    merge: M,
    r: crate::Result<R>,
    through: Access,
    q: crate::Result<R>,
)
    requires
        parse_returns::<S, O, A, I, M, R>(c, host, data, backend, access, acc, init, merge, r),
        stream_returns::<S, O, A, I, M, R>(c, data, through, acc, init, merge, q),
        parser_backend_of(c) is Ok,
        data.len() < usize::MAX,
        surely_read(c, host, data, backend, access),
        needs_in_all(c, data, is_exact(c)) <= through.reach <= through.most,
        takes_each::<S, O, A>(acc, records_ahead(c, data)),
        fails_ahead(c, data) ==> text_ahead::<O>(c, data),
    ensures
        results_agree::<S, O, A, I, M, R>(c, c, data, acc, init, merge, r, q),
{
    let one = a_parse_settles::<S, O, A, I, M, R>(
        c,
        host,
        data,
        backend,
        access,
        acc,
        init,
        merge,
        r,
    );
    let t = plain_task(c, data, through, acc, init);
    let m = a_stream_settles::<S, O, A, I, M, R>(c, data, through, acc, init, merge, q);
    settled_parses_agree::<S, O, A, I>(plain_task(c, data, one.0, acc, init), one.1, t, m);
}

/// A stream that is parsed with success yields what the input yields, and no record of it
/// holds more than can be held.
pub proof fn a_stream_reads_the_whole_input<
    S,
    O: Output + ?Sized,
    A: Accumulator<S, O>,
    I: FnOnce() -> S,
    M: FnOnce(Vec<S>) -> R,
    R,
>(c: Config, data: Seq<u8>, access: Access, acc: A, init: I, merge: M, r: crate::Result<R>)
    requires
        stream_returns::<S, O, A, I, M, R>(c, data, access, acc, init, merge, r),
        access.reach <= access.most,
        data.len() < usize::MAX,
        r is Ok,
    ensures
        yielded(c, data) is Some,
        fits_in(yielded(c, data)->0, access.most),
        text_ahead::<O>(c, data),
        exists|states: Vec<S>| #[trigger]
            taken_as::<S, O, A, I>(
                plain_task(c, data, access, acc, init),
                states@,
                yielded(c, data)->0,
            ) && call_ensures(merge, (states,), r->Ok_0),
{
    let t = plain_task(c, data, access, acc, init);
    let m = a_stream_comes_to::<S, O, A, I, M, R>(c, data, access, acc, init, merge, r);
    a_parse_is_what_the_input_yields::<S, O, A, I>(t, m);
    let found = m->Ok_0;
    let states = choose|states: Vec<S>|
        states@ == found && #[trigger] call_ensures(merge, (states,), r->Ok_0);
    assert(taken_as::<S, O, A, I>(t, states@, yielded(c, data)->0));
}

/// With a header, an input yields what it yields without one, but for the first
/// record, and needs no more room. Blank lines and comments in front of the header do
/// not count as one.
pub proof fn a_header_takes_the_first_record(c: Config, d: Config, data: Seq<u8>)
    requires
        same_dialect(c, d),
        !c.has_headers,
        d.has_headers,
        yielded(c, data) is Some,
    ensures
        yielded(d, data) == Some(
            if yielded(c, data)->0.len() == 0 {
                seq![]
            } else {
                yielded(c, data)->0.drop_first()
            },
        ),
        forall|exact: bool| #[trigger]
            needs_in_all(d, data, exact) <= needs_in_all(c, data, exact),
{
    let n = data.len();
    assert(data.skip(0) =~= data);
    let s = scan(c, beyond(data), data, n);
    scan_bounds(c, beyond(data), data, n);
    same_search(c, d, State::RecordStart, data, n);
    widest_bounds(c, true, data, 0, n);
    widest_bounds(c, false, data, 0, n);
    match search(c, Probe::Off, State::RecordStart, data, n).stop {
        Some(Found::Start(i)) => {
            stops_first(c, data, n, i);
            let k = (i + 1) as nat;
            if scan(c, beyond(data), data, k).halt is Some {
                scan_halted(c, beyond(data), data, k, n);
                scan_bounds(c, beyond(data), data, k);
            }
            the_header_is_the_first_record(c, data, i);
            let rest = data.skip(i);
            same_scan(c, d, beyond(rest), rest, rest.len());
            search_is_scan(c, data, i as nat);
            assert(scan(c, beyond(data), data, k) == advance(
                c,
                beyond(data),
                scan(c, beyond(data), data, i as nat),
                data[i],
                i,
            ));
            search_bounds(c, Probe::Off, State::RecordStart, data, n);
            widest_behind(c, true, data, i);
            widest_behind(c, false, data, i);
            same_widest(c, d, true, rest, rest.len());
            same_widest(c, d, false, rest, rest.len());
        },
        Some(Found::Rejected(_)) => {
            rejected_fails(c, data, n);
        },
        None => {
            search_is_scan(c, data, n);
            assert(yielded(c, data)->0.len() <= 1);
            if yielded(c, data)->0.len() == 1 {
                assert(yielded(c, data)->0.drop_first() =~= seq![]);
            }
        },
    }
}

/// A parse with a header gives what one without gives, but for the first record: where
/// the one succeeds, so does the other.
pub proof fn a_header_only_takes_the_first_record<
    S,
    O: Output + ?Sized,
    A: Accumulator<S, O>,
    I: Fn() -> S,
    M: FnOnce(Vec<S>) -> R,
    R,
>(
    c: Config,
    d: Config,
    host: Host,
    data: Seq<u8>,
    backend: spec_fn(ResolvedConfig) -> IoBackend,
    access: spec_fn(IoBackend) -> Access,
    acc: A,
    init: I,
    merge: M,
    without: crate::Result<R>,
    r: crate::Result<R>,
)
    requires
        d == (Config { has_headers: true, ..c }),
        !c.has_headers,
        parse_returns::<S, O, A, I, M, R>(
            c,
            host,
            data,
            backend,
            access,
            acc,
            init,
            merge,
            without,
        ),
        without is Ok,
        parse_returns::<S, O, A, I, M, R>(d, host, data, backend, access, acc, init, merge, r),
        parser_backend_of(d) is Ok,
        O::textual() ==> c.ascii(),
        surely_read(d, host, data, backend, access),
        takes_each::<S, O, A>(acc, yielded(c, data)->0),
    ensures
        r is Ok,
        yielded(c, data) matches Some(records) && yielded(d, data) == Some(
            if records.len() == 0 {
                records
            } else {
                records.drop_first()
            },
        ),
        exists|a: Access, states: Vec<S>| #[trigger]
            taken_as::<S, O, A, I>(
                plain_task(d, data, a, acc, init),
                states@,
                yielded(d, data)->0,
            ) && call_ensures(merge, (states,), r->Ok_0),
{
    a_parse_reads_the_whole_input::<S, O, A, I, M, R>(
        c,
        host,
        data,
        backend,
        access,
        acc,
        init,
        merge,
        without,
    );
    a_header_takes_the_first_record(c, d, data);
    let all = yielded(c, data)->0;
    let some = yielded(d, data)->0;
    if all.len() == 0 {
        assert(all =~= seq![]);
    }
    if O::textual() {
        assert(data.skip(0) =~= data);
        assert(d.controls() == c.controls());
        assert forall|i: int| 0 <= i < 6 implies ((#[trigger] d.controls()[i]) matches Some(b) ==> b
            < 0x80) by {
            assert(c.controls()[i] matches Some(b) ==> b < 0x80);
        }
        text_is_text_ahead::<O>(d, data);
    }
    assert forall|before: S, k: int, e: UserError| 0 <= k < some.len() implies !#[trigger] answers::<
        S,
        O,
        A,
    >(acc, before, some[k], Err(e)) by {
        assert(some[k] == all[k + 1]);
    }
    a_parse_succeeds::<S, O, A, I, M, R>(d, host, data, backend, access, acc, init, merge, r);
    a_parse_reads_the_whole_input::<S, O, A, I, M, R>(
        d,
        host,
        data,
        backend,
        access,
        acc,
        init,
        merge,
        r,
    );
}

/// Where the number of fields is not fixed, no pass fails for it.
proof fn any_arity_will_do(c: Config, boundary: int, inp: Seq<u8>, n: nat)
    requires
        c.field_count is None,
    ensures
        !(scan(c, boundary, inp, n).halt matches Some(Halt::Failed(Failure::Arity { .. }))),
    decreases n,
{
    if n > 0 {
        any_arity_will_do(c, boundary, inp, (n - 1) as nat);
    }
}

/// A flexible parse never reports a wrong number of fields: where the number is not
/// fixed, such an error can only be the accumulator's own.
pub proof fn a_flexible_parse_counts_no_fields<
    S,
    O: Output + ?Sized,
    A: Accumulator<S, O>,
    I: FnOnce() -> S,
>(t: Task<A, I>, e: Error)
    requires
        t.config.field_count is None,
        comes_of::<S, O, A, I>(t, Err(e)),
        e is NumberOfFields,
    ensures
        header_end(t.config, t.data) matches Some(Found::Start(r0)) && refused_in_order::<S, O, A, I>(
            t,
            one_pass(t, r0).meaning(t.config).records,
            e,
        ),
{
    if let Some(Found::Start(r0)) = header_end(t.config, t.data) {
        let p = one_pass(t, r0);
        any_arity_will_do(t.config, p.boundary, p.inp, p.inp.len());
        assert(!reported(t.exact, t.config, p, e));
    }
}

/// Outside quotes, where misplaced quotes toggle, a search follows a pass that is cut
/// there.
proof fn search_follows(c: Config, data: Seq<u8>, cut: int, m: int)
    requires
        c.distinct(),
        c.comment is None,
        c.quote_handling == QuoteHandling::Toggle,
        0 <= cut <= m <= data.len(),
        scan(c, beyond(data), data, cut as nat).halt is None,
        scan(c, beyond(data), data, cut as nat).state != State::InQuotedField,
        scan(c, beyond(data), data, cut as nat).state != State::InEscapedQuote,
        search(c, Probe::Off, State::FieldStart, data.skip(cut), (m - cut) as nat).stop is None,
    ensures
        ({
            let s = scan(c, cut, data, m as nat);
            let q = search(c, Probe::Off, State::FieldStart, data.skip(cut), (m - cut) as nat);
            &&& s.halt is None
            &&& m > cut ==> s.state == q.state && s.state != State::RecordStart
            &&& m == cut ==> s.state != State::InQuotedField && s.state != State::InEscapedQuote
        }),
    decreases m,
{
    distinct_bytes(c);
    bounded_scan(c, cut, data, cut as nat);
    scan_bounds(c, cut, data, cut as nat);
    scan_bounds(c, cut, data, m as nat);
    no_comment_state(c, cut, data, m as nat);
    if m > cut {
        search_follows(c, data, cut, m - 1);
        scan_bounds(c, cut, data, (m - 1) as nat);
        no_comment_state(c, cut, data, (m - 1) as nat);
        assert(data.skip(cut)[m - 1 - cut] == data[m - 1]);
    }
}

/// Without comments no pass is in one.
proof fn no_comment_state(c: Config, boundary: int, data: Seq<u8>, n: nat)
    requires
        c.comment is None,
    ensures
        scan(c, boundary, data, n).state != State::InComment,
    decreases n,
{
    if n > 0 {
        no_comment_state(c, boundary, data, (n - 1) as nat);
    }
}

/// A chunk ends where the next one starts. Of an input that the dialect can read, cut
/// anywhere outside quotes, the pass over the first part ends at the very terminator that
/// a search of the second part finds first; and the records of the one pass over all
/// are those of the pass to there and those of the pass from there on.
pub proof fn a_chunk_ends_where_the_next_one_starts(c: Config, data: Seq<u8>, cut: int, s: int)
    requires
        c.distinct(),
        c.comment is None,
        c.quote_handling == QuoteHandling::Toggle,
        0 <= cut < data.len(),
        outcome(c, beyond(data), data).end is Ok,
        scan(c, beyond(data), data, cut as nat).state != State::InQuotedField,
        scan(c, beyond(data), data, cut as nat).state != State::InEscapedQuote,
        first_record(
            c,
            FindRecordStart::Lenient,
            Assumption::OutOfQuotes,
            data.skip(cut),
            (data.len() - cut) as nat,
            true,
        ) == Some(Found::Start(s)),
    ensures
        outcome(c, cut, data).end == Ok::<Option<int>, Failure>(Some(cut + s)),
        outcome(c, beyond(data), data).records == outcome(c, cut, data).records + outcome(
            c,
            beyond(data.skip(cut + s)),
            data.skip(cut + s),
        ).records,
{
    let n = data.len();
    let rest = data.skip(cut);
    distinct_bytes(c);
    assert(toggled(c) == c);
    let all = search(c, Probe::Off, State::FieldStart, rest, (n - cut) as nat);
    search_bounds(c, Probe::Off, State::FieldStart, rest, (n - cut) as nat);
    stops_there(c, rest, (n - cut) as nat, s);
    let x = cut + s;
    scan_bounds(c, beyond(data), data, n);
    scan_runs(c, data, cut as nat);
    search_follows(c, data, cut, x);
    let before = scan(c, cut, data, x as nat);
    let after = scan(c, cut, data, (x + 1) as nat);
    assert(rest[s] == data[x]);
    assert(after == advance(c, cut, before, data[x], x));
    scan_bounds(c, cut, data, x as nat);
    no_comment_state(c, cut, data, x as nat);
    // no failure, as there is none in the whole
    bounded_scan(c, cut, data, (x + 1) as nat);
    if after.halt matches Some(Halt::Failed(_)) {
        scan_runs(c, data, (x + 1) as nat);
    }
    scan_halted(c, cut, data, (x + 1) as nat, n);
    super::order::a_pass_cut_in_two(c, data, cut, x);
}

/// A pass that comes to its end was under way before.
proof fn scan_runs(c: Config, data: Seq<u8>, n: nat)
    requires
        n <= data.len(),
        outcome(c, beyond(data), data).end is Ok,
    ensures
        scan(c, beyond(data), data, n).halt is None,
{
    scan_bounds(c, beyond(data), data, data.len());
    if scan(c, beyond(data), data, n).halt is Some {
        scan_halted(c, beyond(data), data, n, data.len());
        scan_bounds(c, beyond(data), data, n);
    }
}

/// A search that stops on a terminator had not stopped before.
proof fn stops_there(c: Config, inp: Seq<u8>, n: nat, s: int)
    requires
        search(c, Probe::Off, State::FieldStart, inp, n).stop == Some(Found::Start(s)),
    ensures
        0 <= s < n,
        search(c, Probe::Off, State::FieldStart, inp, s as nat).stop is None,
        search(c, Probe::Off, State::FieldStart, inp, (s + 1) as nat).stop == Some(Found::Start(s)),
    decreases n,
{
    if n > 0 {
        if search(c, Probe::Off, State::FieldStart, inp, (n - 1) as nat).stop is Some {
            stops_there(c, inp, (n - 1) as nat, s);
        }
    }
}

/// A slice is surely read if the ring buffer can grow to hold its widest record.
pub proof fn a_slice_that_fits_is_surely_read(c: Config, host: Host, data: Seq<u8>)
    requires
        forall|v: ResolvedConfig| #[trigger]
            v.resolves(c, host, data.len() as usize) ==> needs_in_all(c, data, is_exact(c))
                <= ring_room(
                ring_with_share(default_ring(), v.share()),
                host.allocation_granularity,
            ),
    ensures
        surely_read(c, host, data, slice_backend(), slice_access(host)),
{
}

/// Without a buffer budget, a slice is surely read.
pub proof fn a_slice_without_a_budget_is_surely_read(c: Config, host: Host, data: Seq<u8>)
    requires
        io_buffer_limit_of(c, host) is None,
        host.allocation_granularity <= 0x3fff_ffff,
        4 * (data.len() + 131) <= usize::MAX,
    ensures
        surely_read(c, host, data, slice_backend(), slice_access(host)),
{
    let exact = is_exact(c);
    let runs = !exact;
    if let Some(Found::Start(r0)) = header_end(c, data) {
        let rest = data.skip(r0);
        assert forall|m: nat| m <= rest.len() implies #[trigger] stretch(c, runs, rest, m)
            <= rest.len() by {
            open_within(c, runs, rest, m);
        }
        widest_within(c, runs, rest, rest.len(), rest.len() as int);
        if c.has_headers {
            search_bounds(c, Probe::Off, State::RecordStart, data, data.len());
        }
    }
    reveal_with_fuel(doubled_up, 16);
    assert(doubled_up(16384, 1) == 16384);
    assert forall|v: ResolvedConfig| #[trigger]
        v.resolves(c, host, data.len() as usize) implies needs_in_all(c, data, exact) <= ring_room(
        ring_with_share(default_ring(), v.share()),
        host.allocation_granularity,
    ) by {
        let settings = ring_with_share(default_ring(), v.share());
        assert(v.share() is None);
        assert(settings.buffer_limit is None);
        grown_freely(ring_size(16384, host.allocation_granularity as int));
    }
    a_slice_that_fits_is_surely_read(c, host, data);
}

/// What is under way starts in the input.
proof fn open_within(c: Config, runs: bool, inp: Seq<u8>, n: nat)
    ensures
        open_since(c, runs, inp, n) matches Some(i) ==> 0 <= i < n,
    decreases n,
{
    if n > 0 {
        open_within(c, runs, inp, (n - 1) as nat);
    }
}

/// Without a limit a ring buffer grows as far as the machine allows.
proof fn grown_freely(size: int)
    requires
        size >= 1,
    ensures
        4 * grown(size, None) > usize::MAX,
    decreases usize::MAX - size,
{
    if 4 * size <= usize::MAX {
        grown_freely(2 * size);
    }
}

/// What is spelled is yielded: an input put together from records, comments and blank
/// lines yields these records, each field as the bytes it holds.
pub proof fn spelled_records_are_yielded(c: Config, input: Seq<Line>)
    requires
        !c.has_headers,
        apart(c),
        all_fit(c, input),
    ensures
        yielded(c, text(c, input)) matches Some(records) && all_read_as(
            c,
            records_of(input),
            records,
        ),
{
    what_is_spelled_is_read(c, input);
    assert(text(c, input).skip(0) =~= text(c, input));
}

/// With a header, what is spelled is yielded but for the first record.
pub proof fn spelled_records_are_yielded_behind_the_header(c: Config, input: Seq<Line>)
    requires
        !c.has_headers,
        apart(c),
        all_fit(c, input),
    ensures
        ({
            let d = Config { has_headers: true, ..c };
            let spelled = records_of(input);
            yielded(d, text(c, input)) matches Some(records) && all_read_as(
                c,
                if spelled.len() == 0 {
                    spelled
                } else {
                    spelled.drop_first()
                },
                records,
            )
        }),
{
    let d = Config { has_headers: true, ..c };
    let data = text(c, input);
    let spelled = records_of(input);
    spelled_records_are_yielded(c, input);
    a_header_takes_the_first_record(c, d, data);
    let all = yielded(c, data)->0;
    if spelled.len() > 0 {
        let rest = spelled.drop_first();
        let records = all.drop_first();
        assert forall|k: int| 0 <= k < rest.len() implies reads_as(
            c,
            #[trigger] rest[k],
            records[k],
        ) by {
            assert(reads_as(c, spelled[k + 1], all[k + 1]));
        }
    }
}

/// An input without quotes yields its lines, but for blank lines and comments, cut at the
/// delimiters, each field byte for byte.
pub proof fn plain_lines_are_yielded(c: Config, data: Seq<u8>)
    requires
        !c.has_headers,
        apart(c),
        is_plain(c, data),
        numbers_fit(c, lines_of(c, data)),
    ensures
        yielded(c, data) matches Some(records) && cut_as(c, kept(c, lines_of(c, data)), records),
{
    plain_lines_are_cut(c, data);
    assert(data.skip(0) =~= data);
}

/// A report says what is wrong, and where in the input. The table-driven parser says just
/// that; the bitmask parser may stop counting the fields of a record that has too many, and
/// may report such a record before it notices that a quote in it is not closed.
pub proof fn a_report_says_what_is_wrong(exact: bool, c: Config, p: Pass, e: Error)
    requires
        p.wf(),
        p.boundary == beyond(p.inp),
        reported(exact, c, p, e),
    ensures
        match outcome(c, beyond(p.inp), p.inp).end {
            Ok(_) => false,
            Err(Failure::Quote { at }) => e matches Error::InvalidQuote { position }
                && position.byte_offset == p.base + at,
            Err(Failure::Unclosed { at, record, fields }) => {
                ||| e matches Error::UnclosedQuote { position } && position.byte_offset == p.base + at
                ||| !exact && c.field_count is Some && (e matches Error::NumberOfFields {
                    expected,
                    found,
                    position,
                } && expected == c.field_count->0 && expected < found <= fields
                    && position.byte_offset == p.base + record)
            },
            Err(Failure::Arity { expected: asked, found: there, at }) => e
                matches Error::NumberOfFields { expected, found, position } && expected == asked
                && position.byte_offset == p.base + at && (found == there || (!exact && asked < found
                <= there)),
        },
{
    outcome_bounds(c, beyond(p.inp), p.inp);
}

/// An accumulator that collects: an initial state holds no record, and every answer holds
/// what the state before held and the record behind it.
pub open spec fn collects<
    S,
    O: Output + ?Sized,
    A: Accumulator<S, O>,
    I: FnOnce() -> S,
>(acc: A, init: I, held: spec_fn(S) -> Seq<Record>) -> bool {
    &&& forall|s0: S| #[trigger] call_ensures(init, (), s0) ==> held(s0) == Seq::<Record>::empty()
    &&& forall|before: S, record: Record, answer: Result<S, UserError>| #[trigger]
        answers::<S, O, A>(acc, before, record, answer) ==> (answer matches Ok(after) && held(after)
            == held(before).push(record))
}

/// What the states hold, one after the other.
pub open spec fn held_by<S>(states: Seq<S>, held: spec_fn(S) -> Seq<Record>) -> Seq<Record>
    decreases states.len(),
{
    if states.len() == 0 {
        seq![]
    } else {
        held_by(states.drop_last(), held) + held(states.last())
    }
}

/// A fold collects the records it is given, in order.
proof fn folding_collects<S, O: Output + ?Sized, A: Accumulator<S, O>, I: FnOnce() -> S>(
    acc: A,
    init: I,
    held: spec_fn(S) -> Seq<Record>,
    s0: S,
    records: Seq<Record>,
    state: S,
)
    requires
        collects::<S, O, A, I>(acc, init, held),
        folds::<S, O, A>(acc, s0, records, state),
    ensures
        held(state) == held(s0) + records,
    decreases records.len(),
{
    if records.len() == 0 {
        assert(held(s0) + records =~= held(s0));
    } else {
        let mid = choose|mid: S|
            #![trigger answers::<S, O, A>(acc, mid, records.last(), Ok(state))]
            {
                &&& folds::<S, O, A>(acc, s0, records.drop_last(), mid)
                &&& presentable::<O>(records.last())
                &&& answers::<S, O, A>(acc, mid, records.last(), Ok(state))
            };
        folding_collects::<S, O, A, I>(acc, init, held, s0, records.drop_last(), mid);
        assert(held(state) == held(mid).push(records.last()));
        assert((held(s0) + records.drop_last()).push(records.last()) =~= held(s0) + records);
    }
}

/// States that fold records of an accumulator that collects hold these records, each once
/// and in order.
proof fn logs_are_collected<
    S,
    O: Output + ?Sized,
    A: Accumulator<S, O>,
    I: FnOnce() -> S,
>(t: Task<A, I>, held: spec_fn(S) -> Seq<Record>, states: Seq<S>, logs: Seq<Seq<Record>>)
    requires
        collects::<S, O, A, I>(t.acc, t.init, held),
        folded::<S, O, A, I>(t, states, logs),
    ensures
        held_by(states, held) == joined(logs),
    decreases states.len(),
{
    if states.len() == 0 {
        assert(joined(logs) =~= seq![]);
    } else {
        let n = states.len() - 1;
        let some = states.drop_last();
        let before = logs.drop_last();
        assert forall|k: int| 0 <= k < some.len() implies #[trigger] one_fold::<S, O, A, I>(
            t,
            before[k],
            some[k],
        ) by {
            assert(one_fold::<S, O, A, I>(t, logs[k], states[k]));
        }
        logs_are_collected::<S, O, A, I>(t, held, some, before);
        assert(one_fold::<S, O, A, I>(t, logs[n], states[n]));
        let s0 = choose|s0: S| #[trigger]
            call_ensures(t.init, (), s0) && folds::<S, O, A>(t.acc, s0, logs[n], states[n]);
        folding_collects::<S, O, A, I>(t.acc, t.init, held, s0, logs[n], states[n]);
        assert(held(s0) + logs[n] =~= logs[n]);
    }
}

/// What is taken by an accumulator that collects is what its states hold, each record once
/// and in order.
pub proof fn collected_records_are_held<
    S,
    O: Output + ?Sized,
    A: Accumulator<S, O>,
    I: FnOnce() -> S,
>(t: Task<A, I>, held: spec_fn(S) -> Seq<Record>, states: Seq<S>, records: Seq<Record>)
    requires
        collects::<S, O, A, I>(t.acc, t.init, held),
        taken_as::<S, O, A, I>(t, states, records),
    ensures
        held_by(states, held) == records,
{
    let logs = choose|logs: Seq<Seq<Record>>| #[trigger]
        folded::<S, O, A, I>(t, states, logs) && joined(logs) == records;
    logs_are_collected::<S, O, A, I>(t, held, states, logs);
}

/// A parse that collects hands the merge function states that hold, one after the other,
/// just the records that the input yields.
pub proof fn a_collecting_parse_collects<
    S,
    O: Output + ?Sized,
    A: Accumulator<S, O>,
    I: Fn() -> S,
    M: FnOnce(Vec<S>) -> R,
    R,
>(
    c: Config,
    host: Host,
    data: Seq<u8>,
    backend: spec_fn(ResolvedConfig) -> IoBackend,
    access: spec_fn(IoBackend) -> Access,
    acc: A,
    init: I,
    merge: M,
    r: crate::Result<R>,
    held: spec_fn(S) -> Seq<Record>,
)
    requires
        parse_returns::<S, O, A, I, M, R>(c, host, data, backend, access, acc, init, merge, r),
        collects::<S, O, A, I>(acc, init, held),
        r is Ok,
    ensures
        yielded(c, data) is Some,
        exists|states: Vec<S>| #[trigger]
            call_ensures(merge, (states,), r->Ok_0) && held_by(states@, held) == yielded(c, data)->0,
{
    a_parse_reads_the_whole_input::<S, O, A, I, M, R>(
        c,
        host,
        data,
        backend,
        access,
        acc,
        init,
        merge,
        r,
    );
    let records = yielded(c, data)->0;
    let (a, states) = choose|a: Access, states: Vec<S>| #[trigger]
        taken_as::<S, O, A, I>(plain_task(c, data, a, acc, init), states@, records)
            && call_ensures(merge, (states,), r->Ok_0);
    collected_records_are_held::<S, O, A, I>(
        plain_task(c, data, a, acc, init),
        held,
        states@,
        records,
    );
}

/// What the accumulator turns a record down with comes back: it is what it answered to one
/// of the records, an error of this crate moved on to where the record is at most.
pub proof fn what_the_accumulator_says_comes_back<
    S,
    O: Output + ?Sized,
    A: Accumulator<S, O>,
    I: FnOnce() -> S,
>(t: Task<A, I>, records: Seq<Record>, e: Error)
    requires
        refused_in_order::<S, O, A, I>(t, records, e),
    ensures
        exists|before: S, n: int, err: UserError, shift: int|
            #![trigger answers::<S, O, A>(t.acc, before, records[n], Err(err)), Error::of_user(err).moved(shift)]
            0 <= n < records.len() && 0 <= shift <= t.data.len() && answers::<S, O, A>(
                t.acc,
                before,
                records[n],
                Err(err),
            ) && e == (match err {
                UserError::Parser(own) => own.moved(shift),
                UserError::Other(own) => Error::User(own),
            }),
{
    let (states, logs, s0, shift) = choose|
        states: Seq<S>,
        logs: Seq<Seq<Record>>,
        s0: S,
        shift: int,
    |
        0 <= shift <= t.data.len() && starts(joined(logs), records) && call_ensures(
            t.init,
            (),
            s0,
        ) && #[trigger] folded::<S, O, A, I>(t, states, logs) && #[trigger] some_refused::<S, O, A>(
            t.acc,
            s0,
            records.skip(joined(logs).len() as int),
            shift,
            e,
        );
    let a = joined(logs).len() as int;
    let rest = records.skip(a);
    let (n, own) = choose|n: int, own: Error|
        0 <= n < rest.len() && #[trigger] refuses::<S, O, A>(
            t.acc,
            s0,
            rest.take(n),
            rest[n],
            own,
        ) && e == own.moved(shift);
    let (mid, err) = choose|mid: S, err: UserError|
        #![trigger answers::<S, O, A>(t.acc, mid, rest[n], Err(err))]
        {
            &&& folds::<S, O, A>(t.acc, s0, rest.take(n), mid)
            &&& presentable::<O>(rest[n])
            &&& answers::<S, O, A>(t.acc, mid, rest[n], Err(err))
            &&& own == Error::of_user(err)
        };
    assert(records[a + n] == rest[n]);
    assert(answers::<S, O, A>(t.acc, mid, records[a + n], Err(err)));
    assert(Error::of_user(err).moved(shift) == e);
}

/// The assumption is right about a chunk that a pass enters in the given state.
pub open spec fn is_right(c: Config, a: Assumption, s: State) -> bool {
    match a {
        Assumption::OutOfQuotes => s != State::InQuotedField && s != State::InEscapedQuote,
        Assumption::InQuotes => s == State::InQuotedField,
        Assumption::InQuotesAfterEscape => if c.escape == c.quote {
            s == State::AfterClosingQuote
        } else {
            s == State::InEscapedQuote
        },
    }
}

/// Where misplaced quotes toggle, a search under the right assumption follows a pass.
proof fn right_search_follows(c: Config, from: State, data: Seq<u8>, cut: int, m: int)
    requires
        c.distinct(),
        c.comment is None,
        c.quote_handling == QuoteHandling::Toggle,
        0 <= cut <= m <= data.len(),
        scan(c, beyond(data), data, cut as nat).halt is None,
        ({
            let s = scan(c, beyond(data), data, cut as nat).state;
            from == s || (from == State::FieldStart && s != State::InQuotedField && s
                != State::InEscapedQuote)
        }),
        from != State::RecordStart,
        search(c, Probe::Off, from, data.skip(cut), (m - cut) as nat).stop is None,
    ensures
        ({
            let s = scan(c, cut, data, m as nat);
            let q = search(c, Probe::Off, from, data.skip(cut), (m - cut) as nat);
            &&& s.halt is None
            &&& m > cut ==> s.state == q.state && s.state != State::RecordStart
            &&& m == cut ==> s == scan(c, beyond(data), data, cut as nat) && q.state == from
        }),
    decreases m,
{
    distinct_bytes(c);
    bounded_scan(c, cut, data, cut as nat);
    scan_bounds(c, cut, data, cut as nat);
    scan_bounds(c, cut, data, m as nat);
    no_comment_state(c, cut, data, m as nat);
    if m > cut {
        right_search_follows(c, from, data, cut, m - 1);
        scan_bounds(c, cut, data, (m - 1) as nat);
        no_comment_state(c, cut, data, (m - 1) as nat);
        assert(data.skip(cut)[m - 1 - cut] == data[m - 1]);
    }
}

/// The right assumption finds the boundary. Of an input that the dialect can read, cut
/// anywhere, a search of what follows the cut under the assumption that is right finds first
/// the very terminator that the pass over what comes before it ends at.
pub proof fn the_right_assumption_finds_the_boundary(
    c: Config,
    a: Assumption,
    exact: bool,
    data: Seq<u8>,
    cut: int,
    s: int,
)
    requires
        c.distinct(),
        c.comment is None,
        c.quote_handling == QuoteHandling::Toggle,
        exact || c.escape is None || c.escape == c.quote,
        0 <= cut < data.len(),
        outcome(c, beyond(data), data).end is Ok,
        is_right(c, a, scan(c, beyond(data), data, cut as nat).state),
        c.quote is Some || a == Assumption::OutOfQuotes,
        a == Assumption::InQuotesAfterEscape ==> c.escape is Some,
        first_record(
            c,
            FindRecordStart::Lenient,
            a,
            data.skip(cut),
            (data.len() - cut) as nat,
            exact,
        ) == Some(Found::Start(s)),
    ensures
        outcome(c, cut, data).end == Ok::<Option<int>, Failure>(Some(cut + s)),
{
    let n = data.len();
    let rest = data.skip(cut);
    let from = entry(exact, c, a);
    distinct_bytes(c);
    assert(toggled(c) == c);
    search_bounds(c, Probe::Off, from, rest, (n - cut) as nat);
    search_stops_there(c, from, rest, (n - cut) as nat, s);
    let x = cut + s;
    scan_runs(c, data, cut as nat);
    scan_bounds(c, beyond(data), data, cut as nat);
    right_search_follows(c, from, data, cut, x);
    let before = scan(c, cut, data, x as nat);
    let after = scan(c, cut, data, (x + 1) as nat);
    assert(rest[s] == data[x]);
    assert(after == advance(c, cut, before, data[x], x));
    scan_bounds(c, cut, data, x as nat);
    no_comment_state(c, cut, data, x as nat);
    no_comment_state(c, beyond(data), data, cut as nat);
    bounded_scan(c, cut, data, (x + 1) as nat);
    if after.halt matches Some(Halt::Failed(_)) {
        scan_runs(c, data, (x + 1) as nat);
    }
    scan_halted(c, cut, data, (x + 1) as nat, n);
}

/// A search that stops on a terminator had not stopped before.
proof fn search_stops_there(c: Config, from: State, inp: Seq<u8>, n: nat, s: int)
    requires
        search(c, Probe::Off, from, inp, n).stop == Some(Found::Start(s)),
    ensures
        0 <= s < n,
        search(c, Probe::Off, from, inp, s as nat).stop is None,
        search(c, Probe::Off, from, inp, (s + 1) as nat).stop == Some(Found::Start(s)),
    decreases n,
{
    if n > 0 {
        if search(c, Probe::Off, from, inp, (n - 1) as nat).stop is Some {
            search_stops_there(c, from, inp, (n - 1) as nat, s);
        }
    }
}

/// One of the assumptions is right about any chunk.
pub proof fn one_assumption_is_right(c: Config, s: State)
    requires
        c.escape is Some ==> c.quote is Some,
        s == State::InQuotedField ==> c.quote is Some,
        s == State::InEscapedQuote ==> c.escape is Some && c.escape != c.quote,
    ensures
        exists|k: int|
            0 <= k < assumptions(c.quote, c.escape).len() && is_right(
                c,
                #[trigger] assumptions(c.quote, c.escape)[k],
                s,
            ),
{
    let all = assumptions(c.quote, c.escape);
    if s == State::InQuotedField {
        assert(is_right(c, all[1], s));
    } else if s == State::InEscapedQuote {
        assert(is_right(c, all[2], s));
    } else {
        assert(is_right(c, all[0], s));
    }
}

/// A header is skipped whatever it holds: with a header of any number of fields, an input
/// yields what its lines behind the header spell.
pub proof fn whatever_the_header_holds_is_skipped(
    c: Config,
    front: Seq<Line>,
    header: Seq<Seq<Part>>,
    end: u8,
    input: Seq<Line>,
)
    requires
        c.has_headers,
        apart(c),
        all_fit(c, front),
        records_of(front).len() == 0,
        line_fits(c, header),
        line_end(c, end),
        all_fit(c, input),
    ensures
        yielded(
            c,
            text(c, front) + record_text(c, header) + (seq![end] + text(c, input)),
        ) matches Some(records) && all_read_as(c, records_of(input), records),
{
    let rest = text(c, input);
    let before = text(c, front) + record_text(c, header);
    let data = before + (seq![end] + rest);
    a_header_ends_with_its_line(c, front, header, end, rest);
    let lines = seq![Line::Blank(end)] + input;
    let ahead = data.skip(before.len() as int);
    assert(ahead =~= seq![end] + rest);
    blank_in_front(c, end, input);
    assert forall|k: int| 0 <= k < lines.len() implies fits(c, #[trigger] lines[k]) by {
        if k > 0 {
            assert(fits(c, input[k - 1]));
        }
    }
    what_is_spelled_is_read(c, lines);
}

/// A blank line in front of lines.
proof fn blank_in_front(c: Config, end: u8, input: Seq<Line>)
    ensures
        text(c, seq![Line::Blank(end)] + input) == seq![end] + text(c, input),
        records_of(seq![Line::Blank(end)] + input) == records_of(input),
    decreases input.len(),
{
    let one = seq![Line::Blank(end)];
    let lines = one + input;
    if input.len() == 0 {
        assert(lines =~= one);
        assert(one.drop_last() =~= seq![]);
        assert(text(c, one.drop_last()) =~= seq![]);
        assert(text(c, one) =~= seq![end]);
        assert(records_of(one.drop_last()) =~= seq![]);
        assert(text(c, input) =~= seq![]);
        assert(seq![end] + text(c, input) =~= seq![end]);
    } else {
        blank_in_front(c, end, input.drop_last());
        assert(lines.drop_last() =~= one + input.drop_last());
        assert(lines.last() == input.last());
        assert(text(c, lines) =~= seq![end] + text(c, input));
    }
}

/// What is wrong with a header is reported as it would be of a record.
pub proof fn a_header_is_reported_as_a_record_is(c: Config, d: Config, data: Seq<u8>, i: int)
    requires
        d == (Config { has_headers: true, ..c }),
        !c.has_headers,
        header_end(d, data) == Some(Found::Rejected(i)),
    ensures
        yielded(c, data) is None,
        outcome(c, beyond(data), data).end == Err::<Option<int>, Failure>(Failure::Quote { at: i }),
{
    same_search(c, d, State::RecordStart, data, data.len());
    a_header_fails_as_a_record_does(c, data, i);
    assert(data.skip(0) =~= data);
}

/// A stream is read with a ring buffer of 16 KiB, and with the whole budget for its limit.
pub proof fn a_stream_has_the_whole_budget(c: Config, host: Host)
    ensures
        stream_ring(c, host) == (RingBufSettings {
            buffer_size: 16384,
            buffer_limit: io_buffer_limit_of(c, host),
        }),
{
    backends_are_those_asked_for(c, 0, share_of(io_buffer_limit_of(c, host), 1));
    if let Some(total) = io_buffer_limit_of(c, host) {
        shares_are_even(total, 1);
    }
}

/// What is probed for: a strict search turns misplaced quotes down, a lenient one nothing;
/// and the header of an input is looked for in its first chunk only.
pub proof fn what_is_probed_for(exact: bool, headers: bool, i: int)
    ensures
        strict_probe_of(exact, false) == Probe::Off,
        strict_probe_of(true, true) == Probe::Strict,
        strict_probe_of(false, true) == Probe::Paired,
        i > 0 ==> find_mode_of(headers, i) == FindRecordStart::Strict,
        find_mode_of(headers, 0) == (if headers {
            FindRecordStart::SkipHeaders
        } else {
            FindRecordStart::No
        }),
{
}

/// The caller's function is called with no states.
pub open spec fn merges_nothing<S, M: FnOnce(Vec<S>) -> R, R>(merge: M, r: crate::Result<R>) -> bool {
    exists|v: Vec<S>, out: R|
        #![trigger call_ensures(merge, (v,), out)]
        v@.len() == 0 && call_ensures(merge, (v,), out) && r == Ok::<R, Error>(out)
}

/// Of an empty input there is nothing to merge, nor of one that ends before its header
/// does: not even what an accumulation starts from. A parse says so, or that it could not
/// read.
pub proof fn of_no_records_nothing_is_merged<
    S,
    O: Output + ?Sized,
    A: Accumulator<S, O>,
    I: Fn() -> S,
    M: FnOnce(Vec<S>) -> R,
    R,
>(
    c: Config,
    host: Host,
    data: Seq<u8>,
    backend: spec_fn(ResolvedConfig) -> IoBackend,
    access: spec_fn(IoBackend) -> Access,
    acc: A,
    init: I,
    merge: M,
    r: crate::Result<R>,
)
    requires
        parse_returns::<S, O, A, I, M, R>(c, host, data, backend, access, acc, init, merge, r),
        parser_backend_of(c) is Ok,
        data.len() == 0 || header_end(c, data) is None,
    ensures
        merges_nothing::<S, M, R>(merge, r) || (data.len() > 0 && (r matches Err(e) && e is IO)),
{
    if data.len() > 0 {
        let v = choose|v: ResolvedConfig| #[trigger]
            v.resolves(c, host, data.len() as usize) && v.io_backend == backend(v)
                && chunked_returns::<S, O, A, I, M, R>(
                resolved_task(v, data, access(v.io_backend), acc, init),
                merge,
                r,
            );
        same_search(c, v.config, State::RecordStart, data, data.len());
        assert(header_end(v.config, data) is None);
    }
}

/// A stream is one state, however many records it holds.
pub proof fn a_stream_is_merged_on_its_own<
    S,
    O: Output + ?Sized,
    A: Accumulator<S, O>,
    I: FnOnce() -> S,
    M: FnOnce(Vec<S>) -> R,
    R,
>(c: Config, data: Seq<u8>, access: Access, acc: A, init: I, merge: M, out: R)
    requires
        stream_returns::<S, O, A, I, M, R>(c, data, access, acc, init, merge, Ok(out)),
    ensures
        exists|v: Vec<S>| v@.len() == 1 && #[trigger] call_ensures(merge, (v,), out),
{
}

/// What a chunk is searched for: in a dialect where every quote toggles, no further than the
/// chunk goes; and where the state at its start is assumed, from that state on.
pub proof fn what_is_looked_for(c: Config, a: Assumption, rest: Seq<u8>, left: nat, exact: bool)
    ensures
        ({
            let d = Config { quote_handling: QuoteHandling::Toggle, ..c };
            let n = if left < rest.len() {
                left
            } else {
                rest.len()
            };
            let from = match a {
                Assumption::OutOfQuotes => State::FieldStart,
                Assumption::InQuotes => State::InQuotedField,
                Assumption::InQuotesAfterEscape => if c.quote is Some && c.quote == c.escape {
                    if exact {
                        State::AfterClosingQuote
                    } else {
                        State::FieldStart
                    }
                } else if exact {
                    State::InEscapedQuote
                } else if c.quote == c.escape {
                    State::FieldStart
                } else {
                    State::InQuotedField
                },
            };
            let probe = if exact {
                Probe::Strict
            } else {
                Probe::Paired
            };
            &&& first_record(c, FindRecordStart::No, a, rest, left, exact) == Some(Found::Start(0))
            &&& first_record(c, FindRecordStart::Strict, a, rest, left, exact) == search(
                d,
                probe,
                from,
                rest,
                n,
            ).stop
            &&& first_record(c, FindRecordStart::Lenient, a, rest, left, exact) == search(
                d,
                Probe::Off,
                from,
                rest,
                n,
            ).stop
        }),
{
}

/// A boundary counts just if the search finds it under one of the assumptions.
pub proof fn boundaries_are_those_found(
    c: Config,
    find: FindRecordStart,
    guesses: Seq<Assumption>,
    rest: Seq<u8>,
    left: nat,
    exact: bool,
    i: int,
)
    ensures
        starts_in(c, find, guesses, rest, left, exact).contains(i) <==> exists|k: int|
            0 <= k < guesses.len() && first_record(
                c,
                find,
                #[trigger] guesses[k],
                rest,
                left,
                exact,
            ) == Some(Found::Start(i)),
    decreases guesses.len(),
{
    let all = starts_in(c, find, guesses, rest, left, exact);
    if guesses.len() > 0 {
        let fewer = guesses.drop_last();
        boundaries_are_those_found(c, find, fewer, rest, left, exact, i);
        let before = starts_in(c, find, fewer, rest, left, exact);
        let here = first_record(c, find, guesses.last(), rest, left, exact);
        if before.contains(i) {
            let k = choose|k: int|
                0 <= k < fewer.len() && first_record(
                    c,
                    find,
                    #[trigger] fewer[k],
                    rest,
                    left,
                    exact,
                ) == Some(Found::Start(i));
            assert(guesses[k] == fewer[k]);
            let j = choose|j: int| 0 <= j < before.len() && before[j] == i;
            assert(all[j] == i);
        }
        if here == Some(Found::Start(i)) {
            assert(all.last() == i);
            assert(guesses[guesses.len() - 1] == guesses.last());
        }
        if all.contains(i) && !before.contains(i) {
            let j = choose|j: int| 0 <= j < all.len() && all[j] == i;
            if j < before.len() {
                assert(before[j] == i);
            }
            assert(guesses[guesses.len() - 1] == guesses.last());
        }
        if exists|k: int|
            0 <= k < guesses.len() && first_record(
                c,
                find,
                #[trigger] guesses[k],
                rest,
                left,
                exact,
            ) == Some(Found::Start(i)) {
            let k = choose|k: int|
                0 <= k < guesses.len() && first_record(
                    c,
                    find,
                    #[trigger] guesses[k],
                    rest,
                    left,
                    exact,
                ) == Some(Found::Start(i));
            if k < fewer.len() {
                assert(fewer[k] == guesses[k]);
            }
        }
    }
}

/// The lenient search is tried only where the strict one turns every assumption down.
pub proof fn leniency_is_the_last_resort(
    c: Config,
    find: FindRecordStart,
    guesses: Seq<Assumption>,
    rest: Seq<u8>,
    left: nat,
    exact: bool,
)
    ensures
        ({
            let all_turned_down = find == FindRecordStart::Strict && forall|k: int|
                0 <= k < guesses.len() ==> (first_record(
                    c,
                    find,
                    #[trigger] guesses[k],
                    rest,
                    left,
                    exact,
                ) matches Some(Found::Rejected(_)));
            chunk_starts(c, find, guesses, rest, left, exact) == (if all_turned_down {
                starts_in(c, FindRecordStart::Lenient, guesses, rest, left, exact)
            } else {
                starts_in(c, find, guesses, rest, left, exact)
            })
        }),
{
    let strict = starts_in(c, find, guesses, rest, left, exact);
    if strict.len() > 0 {
        assert(strict.contains(strict[0]));
        boundaries_are_those_found(c, find, guesses, rest, left, exact, strict[0]);
    }
    assert forall|k: int| 0 <= k < guesses.len() && strict.len() == 0 implies !(first_record(
        c,
        find,
        #[trigger] guesses[k],
        rest,
        left,
        exact,
    ) matches Some(Found::Start(_))) by {
        if let Some(Found::Start(i)) = first_record(c, find, guesses[k], rest, left, exact) {
            boundaries_are_those_found(c, find, guesses, rest, left, exact, i);
        }
    }
}

/// A slice is read through ring buffers of 16 KiB, each with its share of the budget; a
/// file with the backend that is resolved for it.
pub proof fn slices_are_read_through_rings(c: Config, v: ResolvedConfig, len: int)
    ensures
        slice_backend()(v) == IoBackend::RingBuf(
            RingBufSettings { buffer_size: 16384, buffer_limit: v.share() },
        ),
        file_backend(c, len)(v) == io_backend_of(c, len, v.share()),
{
    backends_are_those_asked_for(c, len, v.share());
}

/// What can be read at a time: of a ring buffer what it has room for, of a mapped or loaded
/// file everything; and nothing is sure where the file itself is not.
pub proof fn what_can_be_read<F: FileInput, SRC: Source>(
    c: Config,
    host: Host,
    file: F,
    src: SRC,
    settings: RingBufSettings,
)
    ensures
        ({
            let room = ring_room(settings, host.allocation_granularity);
            let all = usize::MAX as nat;
            let ring = IoBackend::RingBuf(settings);
            let mapped = file_access(file, host)(IoBackend::Mmap);
            let loaded = file_access(file, host)(IoBackend::InMemory);
            let rung = file_access(file, host)(ring);
            let stream = stream_access(c, host, src);
            &&& slice_access(host)(ring) == (Access { reach: room, most: room })
            &&& mapped.most == all && mapped.reach == (if file.maps() {
                all
            } else {
                0
            })
            &&& loaded.most == all && loaded.reach == (if file.loads() {
                all
            } else {
                0
            })
            &&& rung.most == room && rung.reach == (if file.rings(
                settings,
                host.allocation_granularity,
            ) {
                room
            } else {
                0
            })
            &&& stream.most == ring_room(stream_ring(c, host), host.allocation_granularity)
            &&& stream.reach == (if src.reliable() {
                stream.most
            } else {
                0
            })
        }),
{
}

/// A parse chunk by chunk hands no more states to be merged than there are chunks: all but
/// the last of as many chunks lie within the input.
pub proof fn states_are_no_more_than_chunks<
    S,
    O: Output + ?Sized,
    A: Accumulator<S, O>,
    I: Fn() -> S,
>(t: Task<A, I>, outputs: Seq<ChunkOutput<S>>, states: Seq<S>)
    requires
        chunked::<S, O, A, I>(t, outputs, Ok(states)),
        states.len() > 0,
    ensures
        (states.len() - 1) * t.config.chunk_size < t.data.len(),
{
    if let Some(Found::Start(r0)) = header_end(t.config, t.data) {
        a_state_for_each_chunk_at_most(
            t.config.chunk_size as int,
            t.data.len() as int,
            outputs,
            |a: int, b: int, x: crate::Result<(S, Option<usize>)>|
                redone::<S, O, A, I>(t, a, b, x),
            0,
            r0,
            seq![],
            states,
        );
        assert((states.len() - 1) * t.config.chunk_size <= (outputs.len() - 1)
            * t.config.chunk_size) by (nonlinear_arith)
            requires
                states.len() <= outputs.len(),
                t.config.chunk_size >= 0,
        ;
    }
}

} // verus!
