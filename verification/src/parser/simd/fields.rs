//! What the masks have to do with records: where fields begin and end, which
//! quotes are no content, and where a record goes wrong, as the grammar has it.

use vstd::prelude::*;

use super::chars_of;
use super::findstart::{readable, readable_bytes};
use super::masks::{
    before_edge, begins, behind_edge, cut_at, delim_at, ends, gone, inside, opens, quote_at,
    run_end, run_start, shuts, stop_at, term_at,
};
use super::scan::ScannerConfig;
use crate::config::Config;
use crate::parser::dfa::table::{cell, State};
use crate::parser::grammar::{
    advance, beyond, outcome, scan, scan_blank, scan_bounds, scan_grows, scan_halted, shaped,
    Failure, Halt, Outcome, Record,
};

verus! {

/// Where the line that byte `i` is part of, or would be, starts.
pub open spec fn line_start(k: ScannerConfig, x: Seq<u8>, i: int) -> int
    decreases i,
{
    if i <= 0 {
        0
    } else if stop_at(k, x, i - 1) {
        i
    } else {
        line_start(k, x, i - 1)
    }
}

/// How many delimiters the line has before byte `i`.
pub open spec fn line_cuts(k: ScannerConfig, x: Seq<u8>, i: int) -> nat
    decreases i,
{
    if i <= 0 || stop_at(k, x, i - 1) {
        0
    } else if cut_at(k, x, i - 1) {
        line_cuts(k, x, i - 1) + 1
    } else {
        line_cuts(k, x, i - 1)
    }
}

/// Where the field that byte `i` is part of, or would be, starts.
pub open spec fn field_start(k: ScannerConfig, x: Seq<u8>, i: int) -> int
    decreases i,
{
    if i <= 0 {
        0
    } else if stop_at(k, x, i - 1) || cut_at(k, x, i - 1) {
        i
    } else {
        field_start(k, x, i - 1)
    }
}

/// The line that ends at `i` has another number of fields than `n`.
pub open spec fn bad_line(k: ScannerConfig, x: Seq<u8>, n: int, i: int) -> bool {
    stop_at(k, x, i) && line_start(k, x, i) < i && line_cuts(k, x, i) + 1 != n
}

/// The state a pass is in follows from the quotes so far and the last byte.
pub open spec fn state_at(k: ScannerConfig, x: Seq<u8>, i: int) -> State {
    if inside(k, x, i) {
        State::InQuotedField
    } else if i <= 0 || term_at(k, x, i - 1) {
        State::RecordStart
    } else if delim_at(k, x, i - 1) {
        State::FieldStart
    } else if quote_at(k, x, i - 1) {
        State::AfterClosingQuote
    } else {
        State::InField
    }
}

/// An input that starts with content, if with anything.
pub open spec fn starts_clean(k: ScannerConfig, x: Seq<u8>) -> bool {
    !term_at(k, x, 0)
}

/// Lines and fields start somewhere before.
pub proof fn starts_before(k: ScannerConfig, x: Seq<u8>, i: int)
    requires
        0 <= i,
    ensures
        0 <= line_start(k, x, i) <= field_start(k, x, i) <= i,
        line_cuts(k, x, i) <= i - line_start(k, x, i),
        line_start(k, x, i) == i ==> line_cuts(k, x, i) == 0,
    decreases i,
{
    if i > 0 {
        starts_before(k, x, i - 1);
    }
}

/// A field that does not start the input starts behind a delimiter or a terminator.
pub proof fn starts_follow(k: ScannerConfig, x: Seq<u8>, i: int)
    requires
        0 <= i,
        field_start(k, x, i) > 0,
    ensures
        ({
            let f = field_start(k, x, i);
            stop_at(k, x, f - 1) || cut_at(k, x, f - 1)
        }),
    decreases i,
{
    if !(stop_at(k, x, i - 1) || cut_at(k, x, i - 1)) {
        starts_follow(k, x, i - 1);
    }
}

/// Without bad lines, a pass without a boundary goes on, and its state is what
/// the masks say. The first bad line is where it fails.
pub proof fn scan_lines(c: Config, x: Seq<u8>, boundary: int, i: nat)
    requires
        readable(c),
        starts_clean(chars_of(c), x),
        i <= x.len(),
        boundary > x.len(),
        forall|j: int| 0 <= j < i ==> !#[trigger] bad_line(chars_of(c), x, c.field_count->0 as int, j),
    ensures
        ({
            let k = chars_of(c);
            let s = scan(c, boundary, x, i);
            &&& s.halt is None
            &&& s.state == state_at(k, x, i as int)
            &&& s.fields.len() == line_cuts(k, x, i as int)
            &&& s.state != State::RecordStart ==> s.record_at == line_start(k, x, i as int)
                && s.field_at == field_start(k, x, i as int)
            &&& i < x.len() && bad_line(k, x, c.field_count->0 as int, i as int) ==> scan(
                c,
                boundary,
                x,
                i + 1,
            ).halt == Some(
                Halt::Failed(
                    Failure::Arity {
                        expected: c.field_count->0,
                        found: line_cuts(k, x, i as int) + 1,
                        at: line_start(k, x, i as int),
                    },
                ),
            )
        }),
    decreases i,
{
    readable_bytes(c);
    let k = chars_of(c);
    let n = c.field_count->0 as int;
    if i > 0 {
        let m = (i - 1) as nat;
        scan_lines(c, x, boundary, m);
        let s = scan(c, boundary, x, m);
        let b = x[m as int];
        assert(!bad_line(k, x, n, m as int));
        assert(scan(c, boundary, x, i) == advance(c, boundary, s, b, m as int));
        assert(inside(k, x, i as int) == (inside(k, x, m as int) != quote_at(k, x, m as int)));
        starts_before(k, x, m as int);
        line_of_start(c, x, m as int);
    }
    if i < x.len() {
        let s = scan(c, boundary, x, i);
        let b = x[i as int];
        assert(scan(c, boundary, x, i + 1) == advance(c, boundary, s, b, i as int));
        assert(inside(k, x, i as int + 1) == (inside(k, x, i as int) != quote_at(
            k,
            x,
            i as int,
        )));
        starts_before(k, x, i as int);
        line_of_start(c, x, i as int);
    }
}

/// A line starts at `i` just where the state says so.
proof fn line_of_start(c: Config, x: Seq<u8>, i: int)
    requires
        readable(c),
        0 <= i <= x.len(),
    ensures
        state_at(chars_of(c), x, i) == State::RecordStart <==> line_start(chars_of(c), x, i) == i,
        state_at(chars_of(c), x, i) == State::RecordStart || state_at(chars_of(c), x, i)
            == State::FieldStart <==> field_start(chars_of(c), x, i) == i,
{
    readable_bytes(c);
    let k = chars_of(c);
    if i > 0 {
        starts_before(k, x, i - 1);
        assert(inside(k, x, i) == (inside(k, x, i - 1) != quote_at(k, x, i - 1)));
    }
}

/// The bytes of `x[b..e)` that are content.
pub open spec fn keep(k: ScannerConfig, x: Seq<u8>, b: int, e: int) -> Seq<u8>
    decreases e - b,
{
    if e <= b {
        seq![]
    } else if gone(k, x, e - 1) {
        keep(k, x, b, e - 1)
    } else {
        keep(k, x, b, e - 1).push(x[e - 1])
    }
}

/// The first content byte of the field that starts at `f`. The first field of
/// all begins where it starts, and its opening quote is removed instead.
pub open spec fn begin_of(k: ScannerConfig, x: Seq<u8>, f: int) -> int {
    if f > 0 && quote_at(k, x, f) {
        f + 1
    } else {
        f
    }
}

/// One past the last content byte of the field that ends before the boundary at `i`.
pub open spec fn end_of(k: ScannerConfig, x: Seq<u8>, i: int) -> int {
    if shuts(k, x, i - 1) {
        i - 1
    } else {
        i
    }
}

/// Where the fields begin and end that are complete before byte `i`.
pub open spec fn pieces(k: ScannerConfig, x: Seq<u8>, i: int) -> Seq<(int, int)>
    decreases i,
{
    if i <= 0 {
        seq![]
    } else if before_edge(k, x, i - 1) {
        pieces(k, x, i - 1).push(
            (begin_of(k, x, field_start(k, x, i - 1)), end_of(k, x, i - 1)),
        )
    } else {
        pieces(k, x, i - 1)
    }
}

/// What the fields hold that the pieces are of.
pub open spec fn held(k: ScannerConfig, x: Seq<u8>, p: Seq<(int, int)>) -> Seq<Seq<u8>> {
    p.map_values(|f: (int, int)| keep(k, x, f.0, f.1))
}

/// All fields of `records`, one after the other.
pub open spec fn all_fields(records: Seq<Record>) -> Seq<Seq<u8>>
    decreases records.len(),
{
    if records.len() == 0 {
        seq![]
    } else {
        all_fields(records.drop_last()) + records.last()
    }
}

/// The first half of a pair of quotes has been kept for the second.
pub open spec fn half_pair(k: ScannerConfig, x: Seq<u8>, i: int) -> bool {
    &&& k.doubled_quotes
    &&& quote_at(k, x, i - 1)
    &&& !inside(k, x, i)
    &&& field_start(k, x, i) < i
    &&& quote_at(k, x, i)
}

/// The content of the field in flight, as the masks have it.
pub open spec fn content_is(k: ScannerConfig, x: Seq<u8>, i: int, cur: Seq<u8>) -> bool {
    let b = begin_of(k, x, field_start(k, x, i));
    if shuts(k, x, i - 1) {
        cur == keep(k, x, b, i - 1)
    } else if half_pair(k, x, i) {
        cur.push(x[i]) == keep(k, x, b, i)
    } else {
        cur == keep(k, x, b, i)
    }
}

/// The fields of a pass hold what the masks leave of them.
pub proof fn scan_fields(c: Config, x: Seq<u8>, boundary: int, i: nat)
    requires
        readable(c),
        starts_clean(chars_of(c), x),
        i <= x.len(),
        boundary > x.len(),
        forall|j: int| 0 <= j < i ==> !#[trigger] bad_line(chars_of(c), x, c.field_count->0 as int, j),
    ensures
        ({
            let k = chars_of(c);
            let s = scan(c, boundary, x, i);
            &&& content_is(k, x, i as int, s.cur)
            &&& all_fields(s.records) + s.fields == held(k, x, pieces(k, x, i as int))
            &&& forall|r: int| 0 <= r < s.records.len() ==> (#[trigger] s.records[r]).len()
                == c.field_count->0
        }),
    decreases i,
{
    readable_bytes(c);
    let k = chars_of(c);
    let n = c.field_count->0 as int;
    if i == 0 {
        let s = scan(c, boundary, x, i);
        assert(all_fields(s.records) + s.fields =~= held(k, x, pieces(k, x, 0)));
    } else {
        let m = (i - 1) as nat;
        let j = m as int;
        scan_lines(c, x, boundary, m);
        scan_lines(c, x, boundary, i);
        scan_fields(c, x, boundary, m);
        let s = scan(c, boundary, x, m);
        let t = scan(c, boundary, x, i);
        let b = x[j];
        assert(!bad_line(k, x, n, j));
        assert(t == advance(c, boundary, s, b, j));
        assert(inside(k, x, i as int) == (inside(k, x, j) != quote_at(k, x, j)));
        starts_before(k, x, j);
        line_of_start(c, x, j);
        line_of_start(c, x, i as int);
        content_step(c, x, boundary, m);
        pieces_step(c, x, boundary, m);
    }
}

/// One byte further, what is held of the field in flight stays what the masks say.
proof fn content_step(c: Config, x: Seq<u8>, boundary: int, m: nat)
    requires
        readable(c),
        starts_clean(chars_of(c), x),
        m < x.len(),
        boundary > x.len(),
        forall|j: int| 0 <= j < m + 1 ==> !#[trigger] bad_line(chars_of(c), x, c.field_count->0 as int, j),
        content_is(chars_of(c), x, m as int, scan(c, boundary, x, m).cur),
    ensures
        content_is(chars_of(c), x, m as int + 1, scan(c, boundary, x, m + 1).cur),
{
    readable_bytes(c);
    let k = chars_of(c);
    let j = m as int;
    let i = j + 1;
    scan_lines(c, x, boundary, m);
    scan_lines(c, x, boundary, m + 1);
    let s = scan(c, boundary, x, m);
    let t = scan(c, boundary, x, m + 1);
    let b = x[j];
    assert(!bad_line(k, x, c.field_count->0 as int, j));
    assert(t == advance(c, boundary, s, b, j));
    assert(inside(k, x, i) == (inside(k, x, j) != quote_at(k, x, j)));
    starts_before(k, x, j);
    line_of_start(c, x, j);
    line_of_start(c, x, i);
    scan_bounds(c, boundary, x, m);
    scan_bounds(c, boundary, x, m + 1);
    let f = field_start(k, x, j);
    let bo = begin_of(k, x, f);
    let cell_here = cell(c, s.state, b);
    if before_edge(k, x, j) || stop_at(k, x, j) {
        // a field ends here, or a blank goes by: the next field is empty so far
        assert(field_start(k, x, i) == i);
        assert(t.cur.len() == 0);
        assert(!shuts(k, x, j));
        assert(keep(k, x, begin_of(k, x, i), i) =~= seq![]);
        assert(t.cur =~= seq![]);
    } else {
        assert(field_start(k, x, i) == f);
        // a quote that ends a field is followed by the boundary, and none is here
        assert(!shuts(k, x, j - 1));
        if !quote_at(k, x, j) {
            assert(cell_here.output);
            assert(!gone(k, x, j));
            assert(!half_pair(k, x, j));
            assert(!shuts(k, x, j));
            assert(bo <= j);
            assert(keep(k, x, bo, i) == keep(k, x, bo, j).push(b));
            assert(!half_pair(k, x, i));
        } else if inside(k, x, i) {
            assert(!half_pair(k, x, i));
            assert(!shuts(k, x, j));
            if f == j {
                // the opening quote of the field
                if f > 0 {
                    assert(keep(k, x, bo, i) =~= seq![]);
                } else {
                    assert(!begins(k, x, 1)) by {
                        assert(!behind_edge(k, x, 0));
                        assert(!behind_edge(k, x, -1));
                    }
                    assert(gone(k, x, 0));
                    assert(keep(k, x, 0, 1) == keep(k, x, 0, 0));
                }
                assert(keep(k, x, bo, j) =~= seq![]);
            } else {
                assert(!begins(k, x, i)) by {
                    assert(!behind_edge(k, x, j));
                    assert(!behind_edge(k, x, j - 1)) by {
                        if behind_edge(k, x, j - 1) {
                            assert(field_start(k, x, j) == j);
                        }
                    }
                }
                assert(gone(k, x, j));
                assert(keep(k, x, bo, i) == keep(k, x, bo, j));
            }
        } else {
            // a closing quote
            assert(!half_pair(k, x, j));
            assert(s.state == State::InQuotedField);
            assert(!cell_here.output);
            assert(f < j) by {
                if f == j {
                    assert(state_at(k, x, j) == State::InQuotedField);
                }
            }
            assert(ends(k, x, j) == shuts(k, x, j));
            if !shuts(k, x, j) {
                if half_pair(k, x, i) {
                    assert(!gone(k, x, j));
                    assert(x[i] == b);
                    assert(keep(k, x, bo, i) == keep(k, x, bo, j).push(b));
                } else {
                    assert(!(k.doubled_quotes && quote_at(k, x, i)));
                    assert(gone(k, x, j));
                }
            }
        }
    }
}

/// One byte further, the complete fields stay those of the pieces.
proof fn pieces_step(c: Config, x: Seq<u8>, boundary: int, m: nat)
    requires
        readable(c),
        starts_clean(chars_of(c), x),
        m < x.len(),
        boundary > x.len(),
        forall|j: int| 0 <= j < m + 1 ==> !#[trigger] bad_line(chars_of(c), x, c.field_count->0 as int, j),
        content_is(chars_of(c), x, m as int, scan(c, boundary, x, m).cur),
        ({
            let k = chars_of(c);
            let s = scan(c, boundary, x, m);
            &&& all_fields(s.records) + s.fields == held(k, x, pieces(k, x, m as int))
            &&& forall|r: int| 0 <= r < s.records.len() ==> (#[trigger] s.records[r]).len()
                == c.field_count->0
        }),
    ensures
        ({
            let k = chars_of(c);
            let s = scan(c, boundary, x, m + 1);
            &&& all_fields(s.records) + s.fields == held(k, x, pieces(k, x, m as int + 1))
            &&& forall|r: int| 0 <= r < s.records.len() ==> (#[trigger] s.records[r]).len()
                == c.field_count->0
        }),
{
    readable_bytes(c);
    let k = chars_of(c);
    let j = m as int;
    let i = j + 1;
    scan_lines(c, x, boundary, m);
    scan_lines(c, x, boundary, m + 1);
    let s = scan(c, boundary, x, m);
    let t = scan(c, boundary, x, m + 1);
    let b = x[j];
    assert(!bad_line(k, x, c.field_count->0 as int, j));
    assert(t == advance(c, boundary, s, b, j));
    assert(inside(k, x, i) == (inside(k, x, j) != quote_at(k, x, j)));
    starts_before(k, x, j);
    line_of_start(c, x, j);
    let f = field_start(k, x, j);
    let p = pieces(k, x, j);
    if before_edge(k, x, j) {
        let one = (begin_of(k, x, f), end_of(k, x, j));
        assert(!half_pair(k, x, j));
        assert(s.cur == keep(k, x, one.0, one.1));
        assert(shaped(c, s.cur) == s.cur);
        assert(held(k, x, p.push(one)) =~= held(k, x, p).push(s.cur));
        if cut_at(k, x, j) {
            assert(t.records == s.records);
            assert(t.fields == s.fields.push(s.cur));
            assert(all_fields(t.records) + t.fields =~= (all_fields(s.records) + s.fields).push(
                s.cur,
            ));
        } else {
            // the first terminator of a run: a record ends here
            assert(run_start(k, x, j));
            assert(s.state != State::RecordStart) by {
                if s.state == State::RecordStart && j > 0 {
                    assert(stop_at(k, x, j - 1));
                }
            }
            let record = s.fields.push(s.cur);
            assert(t.records == s.records.push(record));
            assert(t.records.drop_last() =~= s.records);
            assert(all_fields(t.records) == all_fields(s.records) + record);
            assert(all_fields(t.records) + t.fields =~= (all_fields(s.records) + s.fields).push(
                s.cur,
            ));
        }
    } else {
        assert(t.records == s.records);
        assert(t.fields == s.fields);
    }
}

/// Records of `n` fields each, among all fields.
pub proof fn record_among_fields(records: Seq<Record>, n: int, r: int)
    requires
        n >= 0,
        0 <= r < records.len(),
        forall|i: int| 0 <= i < records.len() ==> (#[trigger] records[i]).len() == n,
    ensures
        all_fields(records).len() == records.len() * n,
        0 <= r * n <= (r + 1) * n <= records.len() * n,
        all_fields(records).subrange(r * n, (r + 1) * n) == records[r],
    decreases records.len(),
{
    let rest = records.drop_last();
    let all = all_fields(records);
    fields_count(records, n);
    fields_count(rest, n);
    assert(0 <= r * n && r * n + n == (r + 1) * n && (r + 1) * n <= records.len() * n)
        by (nonlinear_arith)
        requires
            0 <= r < records.len(),
            n >= 0,
    ;
    assert(rest.len() * n + n == records.len() * n) by (nonlinear_arith)
        requires
            rest.len() + 1 == records.len(),
    ;
    if r < rest.len() {
        assert forall|i: int| 0 <= i < rest.len() implies (#[trigger] rest[i]).len() == n by {
            assert(rest[i] == records[i]);
        }
        record_among_fields(rest, n, r);
        assert(all.subrange(r * n, (r + 1) * n) =~= all_fields(rest).subrange(r * n, (r + 1) * n));
    } else {
        assert(all.subrange(r * n, (r + 1) * n) =~= records.last());
    }
}

/// How many fields there are in all.
proof fn fields_count(records: Seq<Record>, n: int)
    requires
        forall|i: int| 0 <= i < records.len() ==> (#[trigger] records[i]).len() == n,
    ensures
        all_fields(records).len() == records.len() * n,
    decreases records.len(),
{
    if records.len() > 0 {
        let rest = records.drop_last();
        assert forall|i: int| 0 <= i < rest.len() implies (#[trigger] rest[i]).len() == n by {
            assert(rest[i] == records[i]);
        }
        fields_count(rest, n);
        assert(rest.len() * n + n == records.len() * n) by (nonlinear_arith)
            requires
                rest.len() + 1 == records.len(),
        ;
    } else {
        assert(0 * n == 0) by (nonlinear_arith);
    }
}

/// The positions from `a` to `b` that have a property, in order.
pub open spec fn spots(test: spec_fn(int) -> bool, a: int, b: int) -> Seq<int>
    decreases b - a,
{
    if b <= a {
        seq![]
    } else if test(b - 1) {
        spots(test, a, b - 1).push(b - 1)
    } else {
        spots(test, a, b - 1)
    }
}

/// Spots can be collected piece by piece.
pub proof fn spots_join(test: spec_fn(int) -> bool, a: int, m: int, b: int)
    requires
        a <= m <= b,
    ensures
        spots(test, a, b) == spots(test, a, m) + spots(test, m, b),
    decreases b - m,
{
    if m < b {
        spots_join(test, a, m, b - 1);
        if test(b - 1) {
            assert(spots(test, a, b) =~= spots(test, a, m) + spots(test, m, b));
        }
    } else {
        assert(spots(test, a, m) + seq![] =~= spots(test, a, m));
    }
}

/// Spots depend on the property in their range only.
pub proof fn spots_same(one: spec_fn(int) -> bool, other: spec_fn(int) -> bool, a: int, b: int)
    requires
        forall|i: int| a <= i < b ==> #[trigger] one(i) == other(i),
    ensures
        spots(one, a, b) == spots(other, a, b),
    decreases b - a,
{
    if a < b {
        spots_same(one, other, a, b - 1);
        assert(one(b - 1) == other(b - 1));
    }
}

/// Spots have the property, lie in the range, and are in order; and what has
/// the property is a spot.
pub proof fn spots_are(test: spec_fn(int) -> bool, a: int, b: int)
    ensures
        forall|i: int|
            0 <= i < spots(test, a, b).len() ==> a <= (#[trigger] spots(test, a, b)[i]) < b && test(
                spots(test, a, b)[i],
            ),
        forall|i: int, j: int|
            0 <= i < j < spots(test, a, b).len() ==> spots(test, a, b)[i] < spots(test, a, b)[j],
        forall|v: int| a <= v < b && test(v) ==> #[trigger] spots(test, a, b).contains(v),
        a <= b ==> spots(test, a, b).len() <= b - a,
    decreases b - a,
{
    if a < b {
        spots_are(test, a, b - 1);
        let before = spots(test, a, b - 1);
        let now = spots(test, a, b);
        assert forall|v: int| a <= v < b && test(v) implies #[trigger] now.contains(v) by {
            if v < b - 1 {
                assert(before.contains(v));
                let i = choose|i: int| 0 <= i < before.len() && before[i] == v;
                assert(now[i] == v);
            } else {
                assert(now[before.len() as int] == v);
            }
        }
    }
}

/// Field ends up to byte `i`.
pub open spec fn end_spots(k: ScannerConfig, x: Seq<u8>, i: int) -> Seq<int> {
    spots(|j: int| ends(k, x, j), 0, i)
}

/// Field beginnings up to byte `i`, with that of the first field of all.
pub open spec fn begin_spots(k: ScannerConfig, x: Seq<u8>, i: int) -> Seq<int> {
    seq![0int] + spots(|j: int| begins(k, x, j), 0, i)
}

/// The ends of the pieces, in order.
pub open spec fn piece_ends(p: Seq<(int, int)>) -> Seq<int> {
    p.map_values(|f: (int, int)| f.1)
}

/// The beginnings of the pieces, in order.
pub open spec fn piece_begins(p: Seq<(int, int)>) -> Seq<int> {
    p.map_values(|f: (int, int)| f.0)
}

/// Field ends are the ends of the pieces; a closing quote is found before the
/// boundary behind it.
pub proof fn ends_are_pieces(c: Config, x: Seq<u8>, i: int)
    requires
        readable(c),
        0 <= i <= x.len(),
    ensures
        ({
            let k = chars_of(c);
            end_spots(k, x, i) == if shuts(k, x, i - 1) {
                piece_ends(pieces(k, x, i)).push(i - 1)
            } else {
                piece_ends(pieces(k, x, i))
            }
        }),
    decreases i,
{
    readable_bytes(c);
    let k = chars_of(c);
    if i == 0 {
        assert(end_spots(k, x, i) =~= piece_ends(pieces(k, x, i)));
    } else {
        let j = i - 1;
        ends_are_pieces(c, x, j);
        let p = pieces(k, x, j);
        if before_edge(k, x, j) {
            let one = (begin_of(k, x, field_start(k, x, j)), end_of(k, x, j));
            assert(piece_ends(p.push(one)) =~= piece_ends(p).push(one.1));
            assert(!shuts(k, x, j));
        } else {
            assert(!shuts(k, x, j - 1));
        }
    }
}

/// The field in flight at `i` has begun.
pub open spec fn begun(k: ScannerConfig, x: Seq<u8>, i: int) -> bool {
    let f = field_start(k, x, i);
    f == 0 || begin_of(k, x, f) < i
}

/// Field beginnings are the beginnings of the pieces, with that of the field in
/// flight.
pub proof fn begins_are_pieces(c: Config, x: Seq<u8>, i: int)
    requires
        readable(c),
        starts_clean(chars_of(c), x),
        0 <= i <= x.len(),
    ensures
        ({
            let k = chars_of(c);
            begin_spots(k, x, i) == if begun(k, x, i) {
                piece_begins(pieces(k, x, i)).push(begin_of(k, x, field_start(k, x, i)))
            } else {
                piece_begins(pieces(k, x, i))
            }
        }),
    decreases i,
{
    readable_bytes(c);
    let k = chars_of(c);
    if i == 0 {
        assert(begin_spots(k, x, i) =~= piece_begins(pieces(k, x, i)).push(0));
    } else {
        let j = i - 1;
        begins_are_pieces(c, x, j);
        let p = pieces(k, x, j);
        let f = field_start(k, x, j);
        let test = |v: int| begins(k, x, v);
        starts_before(k, x, j);
        assert(inside(k, x, i) == (inside(k, x, j) != quote_at(k, x, j)));
        assert(begin_spots(k, x, i) =~= if begins(k, x, j) {
            begin_spots(k, x, j).push(j)
        } else {
            begin_spots(k, x, j)
        }) by {
            assert(test(j) == begins(k, x, j));
        }
        line_of_start(c, x, j);
        line_of_start(c, x, i);
        edges_of_starts(c, x, j);
        edges_of_starts(c, x, i);
        if begun(k, x, j) {
            // no other field begins here
            assert(!begins(k, x, j)) by {
                assert(f < j || f == 0);
                if f < j {
                    assert(!behind_edge(k, x, j - 1));
                    if opens(k, x, j - 1) {
                        assert(behind_edge(k, x, j - 2));
                        assert(field_start(k, x, j - 1) == j - 1);
                        assert(f == j - 1);
                    }
                }
            }
        } else {
            assert(f > 0);
            if f == j {
                assert(!opens(k, x, j - 1)) by {
                    assert(stop_at(k, x, j - 1) || cut_at(k, x, j - 1));
                }
            } else {
                assert(f == j - 1 && quote_at(k, x, f));
                assert(opens(k, x, j - 1));
                assert(begins(k, x, j));
                assert(inside(k, x, j));
            }
        }
        if before_edge(k, x, j) {
            let one = (begin_of(k, x, f), end_of(k, x, j));
            assert(piece_begins(p.push(one)) =~= piece_begins(p).push(one.0));
            assert(field_start(k, x, i) == i);
            assert(!begun(k, x, i));
        } else if stop_at(k, x, j) {
            assert(field_start(k, x, i) == i);
            assert(!begun(k, x, i));
            assert(!behind_edge(k, x, j - 1));
        } else {
            assert(field_start(k, x, i) == f);
        }
    }
}

/// A field starts behind an edge, unless a run of terminators goes on there.
proof fn edges_of_starts(c: Config, x: Seq<u8>, i: int)
    requires
        readable(c),
        starts_clean(chars_of(c), x),
        0 <= i <= x.len(),
    ensures
        ({
            let k = chars_of(c);
            let f = field_start(k, x, i);
            &&& f == i && i > 0 ==> (behind_edge(k, x, i - 1) <==> !stop_at(k, x, i) || cut_at(
                k,
                x,
                i - 1,
            ))
            &&& f < i ==> !behind_edge(k, x, i - 1)
            &&& f < i ==> !cut_at(k, x, i - 1) && !stop_at(k, x, i - 1)
            &&& f < i && f > 0 ==> behind_edge(k, x, f - 1)
            &&& quote_at(k, x, i) ==> !before_edge(k, x, i) && !stop_at(k, x, i)
            &&& before_edge(k, x, i) && f == i && i > 0 ==> behind_edge(k, x, i - 1)
        }),
    decreases i,
{
    readable_bytes(c);
    let k = chars_of(c);
    if i > 0 {
        edges_of_starts(c, x, i - 1);
        starts_before(k, x, i - 1);
    }
}

/// How many boundaries there are before byte `i` that a field starts behind.
pub open spec fn rank(k: ScannerConfig, x: Seq<u8>, i: int) -> nat
    decreases i,
{
    if i <= 0 {
        0
    } else if behind_edge(k, x, i - 1) {
        rank(k, x, i - 1) + 1
    } else {
        rank(k, x, i - 1)
    }
}

/// How many delimiters there are since the last run of terminators ended.
pub open spec fn since_end(k: ScannerConfig, x: Seq<u8>, i: int) -> nat
    decreases i,
{
    if i <= 0 || run_end(k, x, i - 1) {
        0
    } else if cut_at(k, x, i - 1) {
        since_end(k, x, i - 1) + 1
    } else {
        since_end(k, x, i - 1)
    }
}

/// Up to byte `z`, every `n`-th boundary ends a record, and no other does.
pub open spec fn regular(k: ScannerConfig, x: Seq<u8>, n: int, z: int) -> bool {
    forall|i: int|
        0 <= i < z && #[trigger] behind_edge(k, x, i) ==> (run_end(k, x, i) <==> (rank(
            k,
            x,
            i,
        ) as int + 1) % n == 0)
}

/// Counting on from a remainder.
pub proof fn next_remainder(a: int, n: int)
    requires
        n >= 1,
        a >= 0,
    ensures
        (a + 1) % n == (if a % n == n - 1 {
            0
        } else {
            a % n + 1
        }),
        0 <= a % n < n,
{
    vstd::arithmetic::div_mod::lemma_fundamental_div_mod(a, n);
    let q = a / n;
    let r = a % n;
    if r == n - 1 {
        assert(a + 1 == n * (q + 1)) by (nonlinear_arith)
            requires
                a == n * q + r,
                r == n - 1,
        ;
        assert(n * (q + 1) == (q + 1) * n + 0) by (nonlinear_arith);
        vstd::arithmetic::div_mod::lemma_fundamental_div_mod_converse(a + 1, n, q + 1, 0);
    } else {
        assert(n * q == q * n) by (nonlinear_arith);
        vstd::arithmetic::div_mod::lemma_fundamental_div_mod_converse(a + 1, n, q, r + 1);
    }
}

/// In a regular input the boundaries count the fields of a record.
pub proof fn rank_counts(c: Config, x: Seq<u8>, z: int, i: int)
    requires
        readable(c),
        regular(chars_of(c), x, c.field_count->0 as int, z),
        i <= z,
    ensures
        ({
            let k = chars_of(c);
            let n = c.field_count->0 as int;
            rank(k, x, i) as int % n == since_end(k, x, i) && since_end(k, x, i) < n
        }),
    decreases i,
{
    readable_bytes(c);
    let k = chars_of(c);
    let n = c.field_count->0 as int;
    if i > 0 {
        rank_counts(c, x, z, i - 1);
        next_remainder(rank(k, x, i - 1) as int, n);
    } else {
        assert(0int % n == 0) by {
            vstd::arithmetic::div_mod::lemma_small_mod(0, n as nat);
        }
    }
}

/// Where the run of terminators starts that goes up to byte `i`.
pub open spec fn run_begin(k: ScannerConfig, x: Seq<u8>, i: int) -> int
    decreases i,
{
    if i > 0 && stop_at(k, x, i - 1) {
        run_begin(k, x, i - 1)
    } else {
        i
    }
}

/// Along a run of terminators nothing is counted.
proof fn run_is_flat(c: Config, x: Seq<u8>, i: int)
    requires
        readable(c),
        starts_clean(chars_of(c), x),
        0 <= i <= x.len(),
    ensures
        ({
            let k = chars_of(c);
            let j = run_begin(k, x, i);
            &&& 0 <= j <= i
            &&& !stop_at(k, x, j - 1)
            &&& forall|t: int| j <= t < i ==> stop_at(k, x, t)
            &&& stop_at(k, x, i) || j == i ==> since_end(k, x, i) == line_cuts(k, x, j)
            &&& j < i ==> line_start(k, x, j) < j && run_start(k, x, j)
            &&& forall|t: int| j < t < i ==> line_start(k, x, t) == t
        }),
    decreases i,
{
    readable_bytes(c);
    let k = chars_of(c);
    if i > 0 && stop_at(k, x, i - 1) {
        run_is_flat(c, x, i - 1);
        let j = run_begin(k, x, i);
        starts_before(k, x, j);
        if j > 0 {
            starts_before(k, x, j - 1);
        }
    } else if i > 0 {
        run_is_flat(c, x, i - 1);
        let j = run_begin(k, x, i - 1);
        if j < i - 1 {
            // a run ended right before
            assert(stop_at(k, x, i - 2));
            assert(since_end(k, x, i - 1) == 0);
            assert(line_cuts(k, x, i - 1) == 0);
        }
    }
}

/// In a regular input no line is bad, up to where no run of terminators is open.
pub proof fn regular_lines(c: Config, x: Seq<u8>, z: int, i: int)
    requires
        readable(c),
        starts_clean(chars_of(c), x),
        regular(chars_of(c), x, c.field_count->0 as int, z),
        0 <= i <= z,
        i <= x.len(),
        !(stop_at(chars_of(c), x, i - 1) && stop_at(chars_of(c), x, i)),
    ensures
        forall|j: int| 0 <= j < i ==> !#[trigger] bad_line(chars_of(c), x, c.field_count->0 as int, j),
    decreases i, 1int,
{
    readable_bytes(c);
    let k = chars_of(c);
    let n = c.field_count->0 as int;
    if i > 0 {
        if stop_at(k, x, i - 1) {
            // the run that ends here
            run_is_flat(c, x, i - 1);
            run_is_flat(c, x, i);
            let j = run_begin(k, x, i - 1);
            assert(run_end(k, x, i - 1));
            assert(behind_edge(k, x, i - 1));
            rank_counts(c, x, z, i - 1);
            next_remainder(rank(k, x, i - 1) as int, n);
            assert(since_end(k, x, i - 1) == n - 1);
            assert(line_cuts(k, x, j) == n - 1);
            regular_lines(c, x, z, j);
            assert forall|t: int| 0 <= t < i implies !#[trigger] bad_line(k, x, n, t) by {
                if t > j {
                    assert(line_start(k, x, t) == t);
                }
            }
        } else {
            regular_lines_before(c, x, z, i);
        }
    }
}

/// The same, where no terminator stands before `i`.
proof fn regular_lines_before(c: Config, x: Seq<u8>, z: int, i: int)
    requires
        readable(c),
        starts_clean(chars_of(c), x),
        regular(chars_of(c), x, c.field_count->0 as int, z),
        0 < i <= z,
        i <= x.len(),
        !stop_at(chars_of(c), x, i - 1),
    ensures
        forall|j: int| 0 <= j < i ==> !#[trigger] bad_line(chars_of(c), x, c.field_count->0 as int, j),
    decreases i, 0int,
{
    let k = chars_of(c);
    regular_lines(c, x, z, i - 1);
}

/// What an irregular boundary shows: a bad line, or one delimiter too many in
/// the line.
pub proof fn irregular_line(c: Config, x: Seq<u8>, i: int)
    requires
        readable(c),
        starts_clean(chars_of(c), x),
        0 <= i < x.len(),
        regular(chars_of(c), x, c.field_count->0 as int, i),
        behind_edge(chars_of(c), x, i),
        run_end(chars_of(c), x, i) != ((rank(chars_of(c), x, i) as int + 1) % (
        c.field_count->0 as int)
            == 0),
    ensures
        ({
            let k = chars_of(c);
            let n = c.field_count->0 as int;
            ||| cut_at(k, x, i) && line_cuts(k, x, i + 1) == n
            ||| bad_line(k, x, n, run_begin(k, x, i + 1)) && 0 <= run_begin(k, x, i + 1) <= i
        }),
{
    readable_bytes(c);
    let k = chars_of(c);
    let n = c.field_count->0 as int;
    rank_counts(c, x, i, i);
    next_remainder(rank(k, x, i) as int, n);
    run_is_flat(c, x, i);
    run_is_flat(c, x, i + 1);
    if run_end(k, x, i) {
        let j = run_begin(k, x, i);
        assert(run_begin(k, x, i + 1) == j);
        assert(since_end(k, x, i) == line_cuts(k, x, j));
    } else {
        assert(cut_at(k, x, i));
        assert(!stop_at(k, x, i));
        assert(since_end(k, x, i) == n - 1);
        if stop_at(k, x, i - 1) {
            // right behind a run
            assert(run_end(k, x, i - 1));
        } else {
            assert(run_begin(k, x, i) == i);
        }
        assert(line_cuts(k, x, i) == n - 1);
    }
}

/// The boundaries that fields start behind are as many as those that fields
/// end before, but for a run of terminators that goes on.
pub proof fn rank_is_pieces(c: Config, x: Seq<u8>, i: int)
    requires
        readable(c),
        0 <= i <= x.len(),
    ensures
        ({
            let k = chars_of(c);
            pieces(k, x, i).len() == rank(k, x, i) + if stop_at(k, x, i - 1) && stop_at(k, x, i) {
                1nat
            } else {
                0nat
            }
        }),
    decreases i,
{
    readable_bytes(c);
    let k = chars_of(c);
    if i > 0 {
        rank_is_pieces(c, x, i - 1);
        assert(cut_at(k, x, i - 1) ==> !stop_at(k, x, i - 1));
    }
}

/// The boundary that field number `n` ends before, of those complete before
/// byte `i`.
pub open spec fn edge_of(k: ScannerConfig, x: Seq<u8>, i: int, n: int) -> int
    decreases i,
{
    if i <= 0 {
        0
    } else if before_edge(k, x, i - 1) && pieces(k, x, i - 1).len() == n {
        i - 1
    } else {
        edge_of(k, x, i - 1, n)
    }
}

/// A complete field ends before a boundary.
pub proof fn edge_is(k: ScannerConfig, x: Seq<u8>, i: int, n: int)
    requires
        0 <= n < pieces(k, x, i).len(),
    ensures
        ({
            let j = edge_of(k, x, i, n);
            &&& 0 <= j < i
            &&& before_edge(k, x, j)
            &&& pieces(k, x, j).len() == n
            &&& pieces(k, x, i)[n] == (begin_of(k, x, field_start(k, x, j)), end_of(k, x, j))
        }),
    decreases i,
{
    if i > 0 {
        if !(before_edge(k, x, i - 1) && pieces(k, x, i - 1).len() == n) {
            edge_is(k, x, i - 1, n);
        }
    }
}

/// More bytes, more fields; those there are stay.
pub proof fn pieces_grow(k: ScannerConfig, x: Seq<u8>, i: int, j: int)
    requires
        i <= j,
    ensures
        pieces(k, x, i).len() <= pieces(k, x, j).len(),
        forall|n: int|
            0 <= n < pieces(k, x, i).len() ==> pieces(k, x, i)[n] == #[trigger] pieces(k, x, j)[n],
    decreases j - i,
{
    if i < j && j > 0 {
        pieces_grow(k, x, i, j - 1);
    }
}

/// Fields lie one after the other, each with its end behind its beginning, and
/// all before the field in flight.
pub proof fn pieces_ordered(c: Config, x: Seq<u8>, i: int)
    requires
        readable(c),
        starts_clean(chars_of(c), x),
        0 <= i <= x.len(),
    ensures
        ({
            let k = chars_of(c);
            let p = pieces(k, x, i);
            &&& forall|n: int| 0 <= n < p.len() ==> 0 <= (#[trigger] p[n]).0 <= p[n].1
            &&& forall|n: int| 0 <= n < p.len() ==> (#[trigger] p[n]).1 <= field_start(k, x, i)
            &&& forall|n: int, m: int| 0 <= n < m < p.len() ==> p[n].1 <= p[m].0
        }),
    decreases i,
{
    readable_bytes(c);
    let k = chars_of(c);
    if i > 0 {
        let j = i - 1;
        pieces_ordered(c, x, j);
        starts_before(k, x, j);
        let f = field_start(k, x, j);
        edges_of_starts(c, x, j);
        line_of_start(c, x, j);
        if before_edge(k, x, j) {
            let one = (begin_of(k, x, f), end_of(k, x, j));
            assert(one.0 <= one.1) by {
                if quote_at(k, x, f) && f > 0 {
                    assert(f < j);
                    if shuts(k, x, j - 1) && j - 1 == f {
                        assert(inside(k, x, f + 1) == (inside(k, x, f) != quote_at(k, x, f)));
                        edges_of_starts(c, x, f);
                        not_inside_at_start(c, x, j);
                    }
                } else if shuts(k, x, j - 1) {
                    assert(f <= j - 1) by {
                        if f == j {
                            assert(stop_at(k, x, j - 1) || cut_at(k, x, j - 1) || j == 0);
                        }
                    }
                }
            }
            assert(one.1 <= j);
            let was = pieces(k, x, j);
            let now = pieces(k, x, i);
            assert(now == was.push(one));
            assert(field_start(k, x, i) == i);
            assert forall|n: int, m: int| 0 <= n < m < now.len() implies now[n].1 <= now[m].0 by {
                assert(now[n] == was[n]);
                if m < was.len() {
                    assert(now[m] == was[m]);
                } else {
                    assert(was[n].1 <= f);
                }
            }
            assert forall|n: int| 0 <= n < now.len() implies (#[trigger] now[n]).1 <= i by {
                if n < was.len() {
                    assert(now[n] == was[n]);
                }
            }
        } else {
            starts_grow(k, x, j, i);
            let was = pieces(k, x, j);
            let now = pieces(k, x, i);
            assert(now == was);
            assert forall|n: int| 0 <= n < now.len() implies (#[trigger] now[n]).1 <= field_start(
                k,
                x,
                i,
            ) by {
                assert(was[n].1 <= field_start(k, x, j));
            }
        }
    }
}

/// Where a field starts, the scan is outside quotes.
pub proof fn not_inside_at_start(c: Config, x: Seq<u8>, i: int)
    requires
        readable(c),
        0 <= i <= x.len(),
    ensures
        !inside(chars_of(c), x, field_start(chars_of(c), x, i)),
        !inside(chars_of(c), x, line_start(chars_of(c), x, i)),
    decreases i,
{
    if i > 0 {
        not_inside_at_start(c, x, i - 1);
    }
}

/// Starts move on.
pub proof fn starts_grow(k: ScannerConfig, x: Seq<u8>, i: int, j: int)
    requires
        0 <= i <= j,
    ensures
        field_start(k, x, i) <= field_start(k, x, j),
        line_start(k, x, i) <= line_start(k, x, j),
    decreases j - i,
{
    if i < j {
        starts_grow(k, x, i, j - 1);
        starts_before(k, x, j - 1);
    }
}

/// Of two ways to count in steps of `n` there is only one.
pub proof fn same_count(r: int, q: int, n: int, l: int)
    requires
        n >= 1,
        0 <= l < n,
        r * n + l == q * n + (n - 1),
    ensures
        r == q,
        l == n - 1,
{
    assert(r == q) by (nonlinear_arith)
        requires
            n >= 1,
            0 <= l < n,
            r * n + l == q * n + (n - 1),
    ;
}

/// In a regular input, where `q` records have gone by and the next boundary of
/// theirs starts a run of terminators, the grammar completes record `q` there,
/// and it holds what the masks leave of its fields.
pub proof fn record_completes(c: Config, x: Seq<u8>, boundary: int, z: int, j: int, q: int)
    requires
        readable(c),
        starts_clean(chars_of(c), x),
        boundary > x.len(),
        regular(chars_of(c), x, c.field_count->0 as int, z),
        0 <= j <= z,
        j < x.len(),
        0 <= q,
        run_start(chars_of(c), x, j),
        pieces(chars_of(c), x, j).len() == q * (c.field_count->0 as int) + c.field_count->0 - 1,
    ensures
        ({
            let k = chars_of(c);
            let n = c.field_count->0 as int;
            let s = scan(c, boundary, x, j as nat);
            let t = scan(c, boundary, x, (j + 1) as nat);
            &&& forall|i: int| 0 <= i <= j ==> !#[trigger] bad_line(k, x, n, i)
            &&& s.halt is None
            &&& s.records.len() == q
            &&& s.state != State::RecordStart
            &&& t.halt is None
            &&& t.state == State::RecordStart
            &&& t.records.len() == q + 1
            &&& t.records.take(q) == s.records
            &&& t.last_end == Some(j)
            &&& pieces(k, x, j + 1).len() == q * n + n
            &&& t.records[q] == held(k, x, pieces(k, x, j + 1).subrange(q * n, q * n + n))
        }),
{
    readable_bytes(c);
    let k = chars_of(c);
    let n = c.field_count->0 as int;
    regular_lines(c, x, z, j);
    rank_counts(c, x, z, j);
    run_is_flat(c, x, j);
    scan_lines(c, x, boundary, j as nat);
    scan_fields(c, x, boundary, j as nat);
    let s = scan(c, boundary, x, j as nat);
    fields_count(s.records, n);
    let l = line_cuts(k, x, j) as int;
    assert(held(k, x, pieces(k, x, j)).len() == pieces(k, x, j).len());
    assert(s.records.len() * n + l == q * n + (n - 1));
    same_count(s.records.len() as int, q, n, l);
    assert(!bad_line(k, x, n, j));
    assert forall|i: int| 0 <= i < j + 1 implies !#[trigger] bad_line(k, x, n, i) by {}
    scan_lines(c, x, boundary, (j + 1) as nat);
    scan_fields(c, x, boundary, (j + 1) as nat);
    let t = scan(c, boundary, x, (j + 1) as nat);
    assert(inside(k, x, j + 1) == (inside(k, x, j) != quote_at(k, x, j)));
    line_of_start(c, x, j);
    starts_before(k, x, j);
    assert(t == advance(c, boundary, s, x[j], j));
    assert(t.records.len() == s.records.len() + 1);
    assert(t.records.take(q) =~= s.records);
    record_among_fields(t.records, n, q);
    let all = all_fields(t.records);
    assert(t.fields =~= seq![]);
    assert(all + t.fields =~= all);
    let p = pieces(k, x, j + 1);
    assert(q * n + n == (q + 1) * n) by (nonlinear_arith);
    assert(held(k, x, p).subrange(q * n, q * n + n) =~= held(k, x, p.subrange(q * n, q * n + n)));
}

/// In a regular input, the last boundary of a record starts a run of terminators.
pub proof fn record_ends_run(c: Config, x: Seq<u8>, z: int, j: int, q: int)
    requires
        readable(c),
        starts_clean(chars_of(c), x),
        regular(chars_of(c), x, c.field_count->0 as int, z),
        0 <= j < z,
        z <= x.len(),
        0 <= q,
        before_edge(chars_of(c), x, j),
        pieces(chars_of(c), x, j).len() == q * (c.field_count->0 as int) + c.field_count->0 - 1,
    ensures
        run_start(chars_of(c), x, j),
{
    readable_bytes(c);
    let k = chars_of(c);
    let n = c.field_count->0 as int;
    if !run_start(k, x, j) {
        assert(cut_at(k, x, j));
        assert(!stop_at(k, x, j));
        assert(behind_edge(k, x, j));
        rank_is_pieces(c, x, j);
        assert(rank(k, x, j) as int + 1 == (q + 1) * n + 0) by (nonlinear_arith)
            requires
                rank(k, x, j) == q * n + n - 1,
        ;
        vstd::arithmetic::div_mod::lemma_fundamental_div_mod_converse(
            rank(k, x, j) as int + 1,
            n,
            q + 1,
            0,
        );
    }
}

/// Up to the next terminator outside quotes, a pass goes on whatever its boundary.
pub proof fn bounded_line(c: Config, x: Seq<u8>, boundary: int, a: nat, b: nat)
    requires
        readable(c),
        starts_clean(chars_of(c), x),
        a <= b <= x.len(),
        scan(c, boundary, x, a) == scan(c, beyond(x), x, a),
        forall|j: int| 0 <= j < b ==> !#[trigger] bad_line(chars_of(c), x, c.field_count->0 as int, j),
        forall|i: int| a <= i < b ==> !#[trigger] stop_at(chars_of(c), x, i),
    ensures
        scan(c, boundary, x, b) == scan(c, beyond(x), x, b),
    decreases b - a,
{
    if a < b {
        let m = (b - 1) as nat;
        readable_bytes(c);
        let k = chars_of(c);
        bounded_line(c, x, boundary, a, m);
        scan_lines(c, x, beyond(x), m);
        assert(!stop_at(k, x, m as int));
        assert(inside(k, x, m as int + 1) == (inside(k, x, m as int) != quote_at(k, x, m as int)));
        let s = scan(c, beyond(x), x, m);
        assert(s.state == state_at(k, x, m as int));
    }
}

/// Between the start of record `q` and the run of terminators that completes it
/// there is no terminator outside quotes.
pub proof fn no_stop_between(c: Config, x: Seq<u8>, rs: int, j: int)
    requires
        readable(c),
        starts_clean(chars_of(c), x),
        0 <= rs <= j < x.len(),
        !term_at(chars_of(c), x, rs),
        forall|i: int| 0 <= i < j ==> !#[trigger] bad_line(chars_of(c), x, c.field_count->0 as int, i),
        scan(c, beyond(x), x, rs as nat).records.len() == scan(
            c,
            beyond(x),
            x,
            j as nat,
        ).records.len(),
    ensures
        forall|i: int| rs <= i < j ==> !#[trigger] stop_at(chars_of(c), x, i),
{
    readable_bytes(c);
    let k = chars_of(c);
    assert forall|i: int| rs <= i < j implies !#[trigger] stop_at(k, x, i) by {
        if stop_at(k, x, i) {
            let f = first_stop(k, x, rs, i);
            // a record is completed there
            scan_lines(c, x, beyond(x), f as nat);
            scan_lines(c, x, beyond(x), (f + 1) as nat);
            line_of_start(c, x, f);
            starts_before(k, x, f);
            assert(inside(k, x, f + 1) == (inside(k, x, f) != quote_at(k, x, f)));
            let s = scan(c, beyond(x), x, f as nat);
            let t = scan(c, beyond(x), x, (f + 1) as nat);
            assert(t == advance(c, beyond(x), s, x[f], f));
            assert(s.state != State::RecordStart) by {
                if s.state == State::RecordStart {
                    assert(f > rs);
                    assert(stop_at(k, x, f - 1)) by {
                        assert(inside(k, x, f) == (inside(k, x, f - 1) != quote_at(k, x, f - 1)));
                    }
                }
            }
            assert(t.records.len() == s.records.len() + 1);
            scan_grows(c, beyond(x), x, rs as nat, f as nat);
            scan_grows(c, beyond(x), x, (f + 1) as nat, j as nat);
        }
    }
}

/// The first terminator outside quotes in a range that has one.
pub proof fn first_stop(k: ScannerConfig, x: Seq<u8>, a: int, b: int) -> (f: int)
    requires
        a <= b,
        stop_at(k, x, b),
    ensures
        a <= f <= b,
        stop_at(k, x, f),
        forall|i: int| a <= i < f ==> !#[trigger] stop_at(k, x, i),
    decreases b - a,
{
    if exists|i: int| a <= i < b && #[trigger] stop_at(k, x, i) {
        let i = choose|i: int| a <= i < b && #[trigger] stop_at(k, x, i);
        first_stop(k, x, a, i)
    } else {
        b
    }
}

/// Behind the run of terminators that completes a record a pass goes on, if the
/// run ends before the boundary; else it stops there.
pub proof fn run_closes(c: Config, x: Seq<u8>, boundary: int, j: int, e: int)
    requires
        readable(c),
        starts_clean(chars_of(c), x),
        0 <= j <= e < x.len(),
        scan(c, boundary, x, j as nat) == scan(c, beyond(x), x, j as nat),
        scan(c, beyond(x), x, j as nat).state != State::RecordStart,
        scan(c, beyond(x), x, (j + 1) as nat).halt is None,
        scan(c, beyond(x), x, (j + 1) as nat).state == State::RecordStart,
        scan(c, beyond(x), x, (j + 1) as nat).last_end == Some(j),
        forall|i: int| j <= i <= e ==> #[trigger] stop_at(chars_of(c), x, i),
    ensures
        ({
            let records = scan(c, beyond(x), x, (j + 1) as nat).records;
            let at = if boundary > j {
                boundary
            } else {
                j
            };
            &&& e >= boundary ==> outcome(c, boundary, x) == (Outcome {
                records,
                end: Ok(Some(at)),
            })
            &&& e < boundary ==> {
                let s = scan(c, boundary, x, (e + 1) as nat);
                &&& s.halt is None
                &&& s.state == State::RecordStart
                &&& s.records == records
                &&& s.last_end == Some(j)
            }
        }),
{
    readable_bytes(c);
    let k = chars_of(c);
    let s = scan(c, beyond(x), x, j as nat);
    let t = scan(c, boundary, x, (j + 1) as nat);
    assert(stop_at(k, x, j));
    assert(s.halt is None) by {
        if s.halt is Some {
            scan_halted(c, beyond(x), x, j as nat, (j + 1) as nat);
        }
    }
    assert(t == advance(c, boundary, s, x[j], j));
    assert(scan(c, beyond(x), x, (j + 1) as nat) == advance(c, beyond(x), s, x[j], j));
    scan_bounds(c, beyond(x), x, j as nat);
    if j >= boundary {
        scan_halted(c, boundary, x, (j + 1) as nat, x.len());
    } else {
        let stop = if e < boundary {
            e + 1
        } else {
            boundary
        };
        assert forall|i: int| j + 1 <= i < stop implies c.terminator.ends(#[trigger] x[i]) by {
            assert(stop_at(k, x, i));
        }
        scan_blank(c, boundary, x, (j + 1) as nat, stop as nat);
        if e >= boundary {
            let u = scan(c, boundary, x, stop as nat);
            assert(stop_at(k, x, stop));
            assert(scan(c, boundary, x, (stop + 1) as nat) == advance(c, boundary, u, x[stop], stop));
            scan_halted(c, boundary, x, (stop + 1) as nat, x.len());
        }
    }
}

} // verus!
