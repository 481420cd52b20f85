//! What a stretch of input means: the records it holds and where it ends.
//!
//! Everything here is specification. A pass reads an input that starts at a
//! record boundary, byte by byte, and stops at the first terminator at or past
//! its boundary, at the first failure, or at the end of the input.

use vstd::prelude::*;

use super::dfa::table::{cell, State};
use crate::config::Config;
use crate::error::{Error, Position};

verus! {

/// A record: the contents of its fields.
pub type Record = Seq<Seq<u8>>;

/// ASCII whitespace, as stripped by trimming: tab, line feed, vertical tab,
/// form feed, carriage return and space.
pub open spec fn is_space(b: u8) -> bool {
    b == 0x20 || 0x09 <= b <= 0x0D
}

/// `s` without the whitespace it starts with.
pub open spec fn trim_start(s: Seq<u8>) -> Seq<u8>
    decreases s.len(),
{
    if s.len() > 0 && is_space(s[0]) {
        trim_start(s.skip(1))
    } else {
        s
    }
}

/// `s` without the whitespace it ends with.
pub open spec fn trim_end(s: Seq<u8>) -> Seq<u8>
    decreases s.len(),
{
    if s.len() > 0 && is_space(s.last()) {
        trim_end(s.drop_last())
    } else {
        s
    }
}

/// A field as it is handed out: trimmed where the dialect asks for it.
pub open spec fn shaped(c: Config, s: Seq<u8>) -> Seq<u8> {
    if c.trim {
        trim_end(trim_start(s))
    } else {
        s
    }
}

/// Why a pass fails. Offsets count from the start of the input of the pass.
pub enum Failure {
    /// A quote where the dialect allows none.
    Quote { at: int },
    /// A quoted field that the input ends in, the record it is part of, and how many
    /// fields of that record have begun.
    Unclosed { at: int, record: int, fields: nat },
    /// A record with another number of fields than expected.
    Arity { expected: usize, found: nat, at: int },
}

/// Why a pass stops before the end of its input.
pub enum Halt {
    /// On the terminator at this offset, at or past the boundary.
    Done(int),
    /// On a failure.
    Failed(Failure),
}

/// How far a pass has come.
#[verifier::ext_equal]
pub struct Scan {
    /// The state of the machine.
    pub state: State,
    /// The fields of the record in flight.
    pub fields: Record,
    /// The content of the field in flight.
    pub cur: Seq<u8>,
    /// Where the record in flight starts.
    pub record_at: int,
    /// Where the field in flight starts.
    pub field_at: int,
    /// The records completed.
    pub records: Seq<Record>,
    /// The terminator that ended the last record, or that stopped the pass.
    pub last_end: Option<int>,
    /// Why the pass stopped, once it has.
    pub halt: Option<Halt>,
}

/// A pass before its first byte.
pub open spec fn fresh() -> Scan {
    Scan {
        state: State::RecordStart,
        fields: seq![],
        cur: seq![],
        record_at: 0,
        field_at: 0,
        records: seq![],
        last_end: None,
        halt: None,
    }
}

/// A record with `n` fields is one that the dialect expects.
pub open spec fn arity_ok(c: Config, n: nat) -> bool {
    c.field_count matches Some(e) ==> n == e
}

/// The failure of a record with `n` fields that starts at `at`.
pub open spec fn arity_failure(c: Config, n: nat, at: int) -> Failure {
    Failure::Arity { expected: c.field_count->0, found: n, at }
}

/// One byte further: byte `b` at offset `i`, in a pass with the given boundary.
pub open spec fn advance(c: Config, boundary: int, s: Scan, b: u8, i: int) -> Scan {
    let k = cell(c, s.state, b);
    let record_at = if s.state == State::RecordStart {
        i
    } else {
        s.record_at
    };
    let field_at = if s.state == State::RecordStart {
        i
    } else {
        s.field_at
    };
    let cur = if k.output {
        s.cur.push(b)
    } else {
        s.cur
    };
    match k.next {
        State::Error => Scan {
            halt: Some(Halt::Failed(Failure::Quote { at: blamed(s.state, i) })),
            ..s
        },
        State::FieldEnd => Scan {
            state: State::FieldStart,
            fields: s.fields.push(shaped(c, cur)),
            cur: seq![],
            record_at,
            field_at: i + 1,
            ..s
        },
        State::RecordEnd => {
            let record = s.fields.push(shaped(c, cur));
            if !arity_ok(c, record.len()) {
                Scan {
                    halt: Some(Halt::Failed(arity_failure(c, record.len(), record_at))),
                    ..s
                }
            } else {
                Scan {
                    state: State::RecordStart,
                    fields: seq![],
                    cur: seq![],
                    record_at: i + 1,
                    field_at: i + 1,
                    records: s.records.push(record),
                    last_end: Some(i),
                    halt: if i >= boundary {
                        Some(Halt::Done(i))
                    } else {
                        None
                    },
                }
            }
        },
        _ => if s.state == State::RecordStart && c.terminator.ends(b) && i >= boundary {
            Scan { last_end: Some(i), halt: Some(Halt::Done(i)), ..s }
        } else {
            Scan { state: k.next, cur, record_at, field_at, ..s }
        },
    }
}

/// The quote that is at fault when the byte at `i` cannot stand in state `s`: the byte
/// itself, or the closing quote in front of it.
pub open spec fn blamed(s: State, i: int) -> int {
    if s == State::AfterClosingQuote {
        i - 1
    } else {
        i
    }
}

/// A pass over the first `n` bytes of `inp`.
pub open spec fn scan(c: Config, boundary: int, inp: Seq<u8>, n: nat) -> Scan
    decreases n,
{
    if n == 0 {
        fresh()
    } else {
        let s = scan(c, boundary, inp, (n - 1) as nat);
        if s.halt.is_some() {
            s
        } else {
            advance(c, boundary, s, inp[n - 1], n - 1)
        }
    }
}

/// What a pass comes to.
pub struct Outcome {
    /// The records handed out.
    pub records: Seq<Record>,
    /// The offset of the last record's end, or the failure.
    pub end: core::result::Result<Option<int>, Failure>,
}

/// What a pass comes to that has read its whole input of `len` bytes.
pub open spec fn finish(c: Config, s: Scan, len: int) -> Outcome {
    match s.halt {
        Some(Halt::Done(e)) => Outcome { records: s.records, end: Ok(Some(e)) },
        Some(Halt::Failed(f)) => Outcome { records: s.records, end: Err(f) },
        None => match s.state {
            State::RecordStart | State::InComment => Outcome {
                records: s.records,
                end: Ok(s.last_end),
            },
            State::InQuotedField | State::InEscapedQuote => Outcome {
                records: s.records,
                end: Err(
                    Failure::Unclosed {
                        at: s.field_at,
                        record: s.record_at,
                        fields: s.fields.len() + 1,
                    },
                ),
            },
            _ => {
                let record = s.fields.push(shaped(c, s.cur));
                if arity_ok(c, record.len()) {
                    Outcome { records: s.records.push(record), end: Ok(Some(len)) }
                } else {
                    Outcome {
                        records: s.records,
                        end: Err(arity_failure(c, record.len(), s.record_at)),
                    }
                }
            },
        },
    }
}

/// The meaning of `inp`, read from a record boundary on with the given boundary.
pub open spec fn outcome(c: Config, boundary: int, inp: Seq<u8>) -> Outcome {
    finish(c, scan(c, boundary, inp, inp.len()), inp.len() as int)
}

/// The error that reports failure `f` of a pass whose input starts at `base`.
pub open spec fn error_of(f: Failure, base: int) -> Error {
    match f {
        Failure::Quote { at } => Error::InvalidQuote {
            position: Position { byte_offset: (base + at) as usize },
        },
        Failure::Unclosed { at, .. } => Error::UnclosedQuote {
            position: Position { byte_offset: (base + at) as usize },
        },
        Failure::Arity { expected, found, at } => Error::NumberOfFields {
            expected,
            found: found as usize,
            position: Position { byte_offset: (base + at) as usize },
        },
    }
}

/// The offset `e` of a pass whose input starts at `base`, counted from the
/// start of the chunk.
pub open spec fn placed(e: Option<int>, base: int) -> Option<usize> {
    match e {
        Some(i) => Some((base + i) as usize),
        None => None,
    }
}

/// A pass that has stopped stays as it is.
pub proof fn scan_halted(c: Config, boundary: int, inp: Seq<u8>, n: nat, m: nat)
    requires
        n <= m,
        scan(c, boundary, inp, n).halt.is_some(),
    ensures
        scan(c, boundary, inp, m) == scan(c, boundary, inp, n),
    decreases m - n,
{
    if n < m {
        scan_halted(c, boundary, inp, n, (m - 1) as nat);
    }
}

/// A pass that has not stopped had not stopped before.
pub proof fn scan_running(c: Config, boundary: int, inp: Seq<u8>, n: nat, m: nat)
    requires
        n <= m,
        scan(c, boundary, inp, m).halt.is_none(),
    ensures
        scan(c, boundary, inp, n).halt.is_none(),
{
    if scan(c, boundary, inp, n).halt.is_some() {
        scan_halted(c, boundary, inp, n, m);
    }
}

/// Records are only ever added.
pub proof fn scan_grows(c: Config, boundary: int, inp: Seq<u8>, n: nat, m: nat)
    requires
        n <= m,
    ensures
        scan(c, boundary, inp, n).records.len() <= scan(c, boundary, inp, m).records.len(),
        scan(c, boundary, inp, m).records.take(scan(c, boundary, inp, n).records.len() as int)
            == scan(c, boundary, inp, n).records,
    decreases m - n,
{
    let a = scan(c, boundary, inp, n).records;
    if n < m {
        scan_grows(c, boundary, inp, n, (m - 1) as nat);
        let p = scan(c, boundary, inp, (m - 1) as nat).records;
        let q = scan(c, boundary, inp, m).records;
        assert(q.take(p.len() as int) =~= p);
        assert(q.take(a.len() as int) =~= p.take(a.len() as int));
    } else {
        assert(a.take(a.len() as int) =~= a);
    }
}

/// The records of a pass that has come some way are the first records of its outcome.
pub proof fn scan_prefixes_outcome(c: Config, boundary: int, inp: Seq<u8>, n: nat)
    requires
        n <= inp.len(),
    ensures
        ({
            let part = scan(c, boundary, inp, n).records;
            let all = outcome(c, boundary, inp).records;
            part.len() <= all.len() && all.take(part.len() as int) == part
        }),
{
    scan_grows(c, boundary, inp, n, inp.len());
    let part = scan(c, boundary, inp, n).records;
    let all = outcome(c, boundary, inp).records;
    assert(all.take(part.len() as int) =~= part);
}

/// A pass reads no byte past the ones it is asked about.
pub proof fn scan_same(c: Config, boundary: int, a: Seq<u8>, b: Seq<u8>, n: nat)
    requires
        n <= a.len(),
        n <= b.len(),
        forall|i: int| 0 <= i < n ==> a[i] == b[i],
    ensures
        scan(c, boundary, a, n) == scan(c, boundary, b, n),
    decreases n,
{
    if n > 0 {
        scan_same(c, boundary, a, b, (n - 1) as nat);
    }
}

/// What always holds of a pass: where its offsets lie, and what it holds between records.
pub proof fn scan_bounds(c: Config, boundary: int, inp: Seq<u8>, n: nat)
    ensures
        ({
            let s = scan(c, boundary, inp, n);
            &&& 0 <= s.record_at <= n
            &&& 0 <= s.field_at <= n
            &&& s.fields.len() <= n
            &&& s.records.len() <= n
            &&& s.last_end matches Some(e) ==> 0 <= e < n
            &&& s.state == State::RecordStart || s.state == State::InComment ==> s.fields.len() == 0
                && s.cur.len() == 0
            &&& s.state == State::FieldStart ==> s.cur.len() == 0
            &&& s.state != State::FieldEnd && s.state != State::RecordEnd && s.state != State::Error
            &&& s.halt matches Some(h) ==> match h {
                Halt::Done(e) => 0 <= e < n && s.last_end == Some(e) && e >= boundary,
                Halt::Failed(Failure::Quote { at }) => 0 <= at < n,
                Halt::Failed(Failure::Unclosed { .. }) => false,
                Halt::Failed(Failure::Arity { expected, found, at }) => 0 <= at < n && found <= n,
            }
        }),
    decreases n,
{
    if n > 0 {
        scan_bounds(c, boundary, inp, (n - 1) as nat);
        if n == 1 {
            assert(scan(c, boundary, inp, 0) == fresh());
        }
    }
}

/// The last record of a pass ends on a terminator, before the boundary if the pass
/// goes on.
pub proof fn scan_ends(c: Config, boundary: int, inp: Seq<u8>, n: nat)
    requires
        n <= inp.len(),
    ensures
        ({
            let s = scan(c, boundary, inp, n);
            s.last_end matches Some(e) ==> {
                &&& 0 <= e < n
                &&& c.terminator.ends(inp[e])
                &&& s.halt is None ==> e < boundary
            }
        }),
    decreases n,
{
    if n > 0 {
        scan_ends(c, boundary, inp, (n - 1) as nat);
    }
}

/// The offsets of an outcome lie in the input.
pub proof fn outcome_bounds(c: Config, boundary: int, inp: Seq<u8>)
    ensures
        match outcome(c, boundary, inp).end {
            Ok(Some(e)) => 0 <= e <= inp.len(),
            Ok(None) => true,
            Err(Failure::Quote { at }) => 0 <= at < inp.len(),
            Err(Failure::Unclosed { at, record, fields }) => 0 <= at <= inp.len() && 0 <= record
                <= inp.len() && fields <= inp.len() + 1,
            Err(Failure::Arity { expected, found, at }) => 0 <= at <= inp.len() && found
                <= inp.len() + 1,
        },
{
    scan_bounds(c, boundary, inp, inp.len());
}

/// Where a search for a record boundary stops.
pub enum Found {
    /// On the terminator at this offset.
    Start(int),
    /// On a byte that no record of the dialect could hold there.
    Rejected(int),
}

/// How far a search for a record boundary has come.
pub struct Search {
    pub state: State,
    pub stop: Option<Found>,
}

/// What a search turns down besides what the dialect does.
pub enum Probe {
    /// Nothing.
    Off,
    /// What only a strict dialect would.
    Strict,
    /// The same, but for a quote right after a closing quote.
    Paired,
}

/// The search turns down byte `b` in state `s`.
pub open spec fn turns_down(c: Config, probe: Probe, s: State, b: u8) -> bool {
    let k = cell(c, s, b);
    k.next == State::Error || match probe {
        Probe::Off => false,
        Probe::Strict => k.strict,
        Probe::Paired => k.strict && !(s == State::AfterClosingQuote && c.quote == Some(b)),
    }
}

/// One byte further.
pub open spec fn search_step(c: Config, probe: Probe, s: Search, b: u8, i: int) -> Search {
    let k = cell(c, s.state, b);
    if turns_down(c, probe, s.state, b) {
        Search { stop: Some(Found::Rejected(i)), ..s }
    } else if k.next == State::RecordEnd {
        Search { stop: Some(Found::Start(i)), ..s }
    } else if k.next == State::FieldEnd {
        Search { state: State::FieldStart, ..s }
    } else {
        Search { state: k.next, ..s }
    }
}

/// A search over the first `n` bytes of `inp`, begun in state `from`.
pub open spec fn search(c: Config, probe: Probe, from: State, inp: Seq<u8>, n: nat) -> Search
    decreases n,
{
    if n == 0 {
        Search { state: from, stop: None }
    } else {
        let s = search(c, probe, from, inp, (n - 1) as nat);
        if s.stop is Some {
            s
        } else {
            search_step(c, probe, s, inp[n - 1], n - 1)
        }
    }
}

/// A search from the start of an input for the end of its first record, which is the
/// header. What it turns down it blames on the quote.
pub open spec fn header_search(c: Config, inp: Seq<u8>, n: nat) -> Option<Found> {
    anchored(search(c, Probe::Off, State::RecordStart, inp, n), true)
}

/// Where a search stops; with `blame`, what it turns down is blamed on the quote.
pub open spec fn anchored(s: Search, blame: bool) -> Option<Found> {
    match s.stop {
        Some(Found::Rejected(i)) => Some(
            Found::Rejected(
                if blame {
                    blamed(s.state, i)
                } else {
                    i
                },
            ),
        ),
        other => other,
    }
}

/// A search that has stopped stays as it is.
pub proof fn search_stopped(c: Config, probe: Probe, from: State, inp: Seq<u8>, n: nat, m: nat)
    requires
        n <= m,
        search(c, probe, from, inp, n).stop is Some,
    ensures
        search(c, probe, from, inp, m) == search(c, probe, from, inp, n),
    decreases m - n,
{
    if n < m {
        search_stopped(c, probe, from, inp, n, (m - 1) as nat);
    }
}

/// What always holds of a search.
pub proof fn search_bounds(c: Config, probe: Probe, from: State, inp: Seq<u8>, n: nat)
    requires
        from.number() < 7,
    ensures
        ({
            let s = search(c, probe, from, inp, n);
            &&& s.state.number() < 7
            &&& s.stop matches Some(Found::Start(i)) ==> 0 <= i < n && c.terminator.ends(inp[i])
            &&& s.stop matches Some(Found::Rejected(i)) ==> 0 <= i < n
        }),
    decreases n,
{
    if n > 0 {
        search_bounds(c, probe, from, inp, (n - 1) as nat);
    }
}

/// A failure, `n` bytes further on.
pub open spec fn failure_shift(f: Failure, n: int) -> Failure {
    match f {
        Failure::Quote { at } => Failure::Quote { at: at + n },
        Failure::Unclosed { at, record, fields } => Failure::Unclosed {
            at: at + n,
            record: record + n,
            fields,
        },
        Failure::Arity { expected, found, at } => Failure::Arity { expected, found, at: at + n },
    }
}

/// A stop, `n` bytes further on.
pub open spec fn halt_shift(h: Option<Halt>, n: int) -> Option<Halt> {
    match h {
        None => None,
        Some(Halt::Done(e)) => Some(Halt::Done(e + n)),
        Some(Halt::Failed(f)) => Some(Halt::Failed(failure_shift(f, n))),
    }
}

/// The offset `e` of a pass that starts `n` bytes on, or else `before`.
pub open spec fn end_shift(before: Option<int>, e: Option<int>, n: int) -> Option<int> {
    match e {
        Some(i) => Some(i + n),
        None => before,
    }
}

/// A pass that is at `whole` has gone through `before`, and has come from there
/// as far as a pass of its own that started `n` bytes on.
pub open spec fn continues(before: Scan, after: Scan, whole: Scan, n: int) -> bool {
    &&& whole.state == after.state
    &&& whole.fields == after.fields
    &&& whole.cur == after.cur
    &&& whole.records == before.records + after.records
    &&& whole.last_end == end_shift(before.last_end, after.last_end, n)
    &&& whole.halt == halt_shift(after.halt, n)
    &&& whole.state != State::RecordStart ==> whole.record_at == after.record_at + n
        && whole.field_at == after.field_at + n
}

/// Between records a pass can be started anew: it goes on as the old one would.
pub proof fn scan_restart(c: Config, boundary: int, inp: Seq<u8>, n: nat, m: nat)
    requires
        n + m <= inp.len(),
        scan(c, boundary, inp, n).halt is None,
        scan(c, boundary, inp, n).state == State::RecordStart,
    ensures
        continues(
            scan(c, boundary, inp, n),
            scan(c, boundary - n, inp.skip(n as int), m),
            scan(c, boundary, inp, n + m),
            n as int,
        ),
    decreases m,
{
    let before = scan(c, boundary, inp, n);
    scan_bounds(c, boundary, inp, n);
    if m == 0 {
        assert(before.records + seq![] =~= before.records);
        assert(before.fields =~= seq![]);
        assert(before.cur =~= seq![]);
    } else {
        scan_restart(c, boundary, inp, n, (m - 1) as nat);
        let after = scan(c, boundary - n, inp.skip(n as int), (m - 1) as nat);
        let whole = scan(c, boundary, inp, (n + m - 1) as nat);
        if after.halt is None {
            let b = inp[n + m - 1];
            assert(inp.skip(n as int)[m - 1] == b);
            let a2 = advance(c, boundary - n, after, b, m - 1);
            let w2 = advance(c, boundary, whole, b, n + m - 1);
            assert(scan(c, boundary - n, inp.skip(n as int), m) == a2);
            assert(scan(c, boundary, inp, n + m) == w2);
            let k = cell(c, whole.state, b);
            if k.next == State::RecordEnd {
                let cur = if k.output {
                    after.cur.push(b)
                } else {
                    after.cur
                };
                let record = after.fields.push(shaped(c, cur));
                assert(w2.records =~= before.records + a2.records);
            }
            assert(continues(before, a2, w2, n as int));
        }
    }
}

/// What a pass comes to, in terms of a pass that starts between two of its records.
pub proof fn outcome_restart(c: Config, boundary: int, inp: Seq<u8>, n: nat)
    requires
        n <= inp.len(),
        scan(c, boundary, inp, n).halt is None,
        scan(c, boundary, inp, n).state == State::RecordStart,
    ensures
        ({
            let before = scan(c, boundary, inp, n);
            let after = outcome(c, boundary - n, inp.skip(n as int));
            let whole = outcome(c, boundary, inp);
            &&& whole.records == before.records + after.records
            &&& whole.end == match after.end {
                Ok(e) => Ok::<Option<int>, Failure>(end_shift(before.last_end, e, n as int)),
                Err(f) => Err(failure_shift(f, n as int)),
            }
        }),
{
    let m = (inp.len() - n) as nat;
    scan_restart(c, boundary, inp, n, m);
    let before = scan(c, boundary, inp, n);
    let after = scan(c, boundary - n, inp.skip(n as int), m);
    let whole = scan(c, boundary, inp, n + m);
    let record = after.fields.push(shaped(c, after.cur));
    assert((before.records + after.records).push(record) =~= before.records + after.records.push(
        record,
    ));
}

/// A run of terminators before a record leaves a pass as it is, up to the boundary.
pub proof fn scan_blank(c: Config, boundary: int, inp: Seq<u8>, n: nat, m: nat)
    requires
        n <= m <= inp.len(),
        m == n || m <= boundary,
        scan(c, boundary, inp, n).halt is None,
        scan(c, boundary, inp, n).state == State::RecordStart,
        forall|i: int| n <= i < m ==> c.terminator.ends(#[trigger] inp[i]),
    ensures
        ({
            let s = scan(c, boundary, inp, n);
            let t = scan(c, boundary, inp, m);
            t == Scan { record_at: t.record_at, field_at: t.field_at, ..s }
        }),
    decreases m - n,
{
    if n < m {
        scan_blank(c, boundary, inp, n, (m - 1) as nat);
        assert(c.terminator.ends(inp[m - 1]));
    }
}

/// A boundary that no offset reaches.
pub open spec fn beyond(inp: Seq<u8>) -> int {
    inp.len() as int + 1
}

/// A pass with a boundary goes as one without, until it stops at the boundary.
pub proof fn bounded_scan(c: Config, boundary: int, inp: Seq<u8>, n: nat)
    requires
        n <= inp.len(),
    ensures
        ({
            let b = scan(c, boundary, inp, n);
            let u = scan(c, beyond(inp), inp, n);
            match b.halt {
                None => b == u,
                Some(Halt::Failed(f)) => b == u,
                Some(Halt::Done(x)) => {
                    &&& 0 <= x < n
                    &&& c.terminator.ends(inp[x])
                    &&& b.records == scan(c, beyond(inp), inp, (x + 1) as nat).records
                    &&& scan(c, beyond(inp), inp, (x + 1) as nat).halt is None
                    &&& scan(c, beyond(inp), inp, (x + 1) as nat).state == State::RecordStart
                },
            }
        }),
    decreases n,
{
    if n > 0 {
        bounded_scan(c, boundary, inp, (n - 1) as nat);
        scan_bounds(c, boundary, inp, (n - 1) as nat);
    }
}

/// What a pass over the first `n` bytes has not done with: where the record that is
/// under way starts; with `runs`, terminators behind a record still belong to it, also
/// behind one that the pass fails on.
pub open spec fn open_since(c: Config, runs: bool, inp: Seq<u8>, n: nat) -> Option<int>
    decreases n,
{
    if n == 0 {
        None
    } else {
        let s = scan(c, beyond(inp), inp, (n - 1) as nat);
        let before = open_since(c, runs, inp, (n - 1) as nat);
        if s.state == State::InComment {
            None
        } else if s.halt is None && s.state != State::RecordStart {
            before
        } else if c.terminator.ends(inp[n - 1]) {
            if runs {
                before
            } else {
                None
            }
        } else if s.halt is Some || c.comment == Some(inp[n - 1]) {
            None
        } else {
            Some(n - 1)
        }
    }
}

/// How long the record under way is after `n` bytes.
pub open spec fn stretch(c: Config, runs: bool, inp: Seq<u8>, n: nat) -> int {
    match open_since(c, runs, inp, n) {
        Some(i) => n - i,
        None => 0,
    }
}

/// The longest stretch of a pass over the first `n` bytes from where a record starts to its
/// terminator; with `runs`, to the last of the terminators behind it.
pub open spec fn widest(c: Config, runs: bool, inp: Seq<u8>, n: nat) -> int
    decreases n,
{
    if n == 0 {
        0
    } else {
        let before = widest(c, runs, inp, (n - 1) as nat);
        let here = stretch(c, runs, inp, n);
        if here > before {
            here
        } else {
            before
        }
    }
}

/// No stretch is longer than the widest.
pub proof fn widest_bounds(c: Config, runs: bool, inp: Seq<u8>, m: nat, n: nat)
    requires
        m <= n,
    ensures
        stretch(c, runs, inp, m) <= widest(c, runs, inp, n),
        0 <= widest(c, runs, inp, n),
    decreases n,
{
    if m < n {
        widest_bounds(c, runs, inp, m, (n - 1) as nat);
    } else if n > 0 {
        widest_bounds(c, runs, inp, (n - 1) as nat, (n - 1) as nat);
    }
}

/// What no stretch exceeds, the widest does not exceed.
pub proof fn widest_within(c: Config, runs: bool, inp: Seq<u8>, n: nat, most: int)
    requires
        0 <= most,
        forall|m: nat| m <= n ==> #[trigger] stretch(c, runs, inp, m) <= most,
    ensures
        widest(c, runs, inp, n) <= most,
    decreases n,
{
    if n > 0 {
        widest_within(c, runs, inp, (n - 1) as nat, most);
    }
}

/// In a record, what is under way is the record.
pub proof fn open_record(c: Config, runs: bool, inp: Seq<u8>, n: nat)
    requires
        n <= inp.len(),
        scan(c, beyond(inp), inp, n).halt is None,
        scan(c, beyond(inp), inp, n).state != State::RecordStart,
        scan(c, beyond(inp), inp, n).state != State::InComment,
    ensures
        open_since(c, runs, inp, n) == Some(scan(c, beyond(inp), inp, n).record_at),
    decreases n,
{
    assert(scan(c, beyond(inp), inp, 0) == fresh());
    if n > 0 {
        let s = scan(c, beyond(inp), inp, (n - 1) as nat);
        scan_bounds(c, beyond(inp), inp, (n - 1) as nat);
        if s.state != State::RecordStart && s.state != State::InComment {
            open_record(c, runs, inp, (n - 1) as nat);
        }
    }
}

/// What is under way in a pass that starts between two records is under way in the whole.
pub proof fn open_restart(c: Config, runs: bool, inp: Seq<u8>, n: nat, m: nat)
    requires
        n + m <= inp.len(),
        scan(c, beyond(inp), inp, n).halt is None,
        scan(c, beyond(inp), inp, n).state == State::RecordStart,
    ensures
        ({
            let part = open_since(c, runs, inp.skip(n as int), m);
            let whole = open_since(c, runs, inp, n + m);
            &&& part matches Some(i) ==> whole == Some(i + n)
            &&& open_since(c, runs, inp, n) is None && part is None ==> whole is None
        }),
    decreases m,
{
    if m > 0 {
        open_restart(c, runs, inp, n, (m - 1) as nat);
        scan_restart(c, beyond(inp), inp, n, (m - 1) as nat);
        assert(inp.skip(n as int)[m - 1] == inp[n + m - 1]);
    }
}

/// A pass that starts between two records is no wider than the whole, and as wide where
/// nothing comes before it.
pub proof fn widest_restart(c: Config, runs: bool, inp: Seq<u8>, n: nat)
    requires
        n <= inp.len(),
        scan(c, beyond(inp), inp, n).halt is None,
        scan(c, beyond(inp), inp, n).state == State::RecordStart,
    ensures
        ({
            let rest = inp.skip(n as int);
            let part = widest(c, runs, rest, rest.len());
            let whole = widest(c, runs, inp, inp.len());
            &&& part <= whole
            &&& (forall|i: nat| i <= n ==> #[trigger] open_since(c, runs, inp, i) is None)
                ==> whole == part
        }),
{
    let rest = inp.skip(n as int);
    let part = widest(c, runs, rest, rest.len());
    let whole = widest(c, runs, inp, inp.len());
    widest_bounds(c, runs, inp, 0, inp.len());
    widest_bounds(c, runs, rest, 0, rest.len());
    assert forall|m: nat| m <= rest.len() implies #[trigger] stretch(
        c,
        runs,
        rest,
        m,
    ) <= whole by {
        open_restart(c, runs, inp, n, m);
        widest_bounds(c, runs, inp, n + m, inp.len());
    }
    widest_within(c, runs, rest, rest.len(), whole);
    if forall|i: nat| i <= n ==> #[trigger] open_since(c, runs, inp, i) is None {
        assert forall|m: nat| m <= inp.len() implies #[trigger] stretch(
            c,
            runs,
            inp,
            m,
        ) <= part by {
            if m > n {
                let k = (m - n) as nat;
                open_restart(c, runs, inp, n, k);
                widest_bounds(c, runs, rest, k, rest.len());
            } else {
                assert(open_since(c, runs, inp, m) is None);
            }
        }
        widest_within(c, runs, inp, inp.len(), part);
    }
}

/// What follows a terminator between two records, with the terminator, is no wider than
/// the whole.
pub proof fn widest_behind(c: Config, runs: bool, inp: Seq<u8>, x: int)
    requires
        0 <= x < inp.len(),
        c.terminator.ends(inp[x]),
        scan(c, beyond(inp), inp, (x + 1) as nat).halt is None,
        scan(c, beyond(inp), inp, (x + 1) as nat).state == State::RecordStart,
    ensures
        widest(c, runs, inp.skip(x), inp.skip(x).len()) <= widest(c, runs, inp, inp.len()),
{
    let part = inp.skip(x);
    let rest = inp.skip(x + 1);
    widest_restart(c, runs, inp, (x + 1) as nat);
    assert(part[0] == inp[x]);
    scan_blank(c, beyond(part), part, 0, 1);
    assert forall|i: nat| i <= 1 implies #[trigger] open_since(c, runs, part, i) is None by {
        open_blank(c, runs, part, i);
    }
    widest_restart(c, runs, part, 1);
    assert(part.skip(1) =~= rest);
}

/// Blank lines at the start are not under way.
pub proof fn open_blank(c: Config, runs: bool, inp: Seq<u8>, n: nat)
    requires
        n <= inp.len(),
        forall|i: int| 0 <= i < n ==> c.terminator.ends(#[trigger] inp[i]),
    ensures
        open_since(c, runs, inp, n) is None,
    decreases n,
{
    if n > 0 {
        open_blank(c, runs, inp, (n - 1) as nat);
        assert(scan(c, beyond(inp), inp, 0) == fresh());
        scan_blank(c, beyond(inp), inp, 0, (n - 1) as nat);
        assert(c.terminator.ends(inp[n - 1]));
    }
}

} // verus!
