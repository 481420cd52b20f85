//! Where an input goes wrong, and what is reported of it.

use vstd::prelude::*;

use super::chars_of;
use super::fieldcount::located;
use super::fields::{
    bad_line, field_start, line_cuts, line_start, scan_lines, starts_before, starts_clean,
};
use super::findstart::{readable, readable_bytes};
use super::masks::{cut_at, inside, quote_at, stop_at, term_at};
use super::scan::ScannerConfig;
use crate::config::Config;
use crate::error::{Error, Position};
use crate::parser::dfa::table::State;
use crate::parser::driver::{counts_fields, eager_report, Pass};
use crate::parser::grammar::{
    advance, beyond, error_of, outcome, scan, scan_bounds, scan_halted, scan_running, scan_same,
    Failure,
};

verus! {

/// Lines counted from the start of one of them are the lines of the input.
pub proof fn restart_lines(k: ScannerConfig, x: Seq<u8>, rs: int, end: int, i: int)
    requires
        0 <= rs <= end <= x.len(),
        0 <= i <= end - rs,
        !inside(k, x, rs),
        line_start(k, x, rs) == rs,
    ensures
        ({
            let y = x.subrange(rs, end);
            &&& inside(k, x, rs + i) == inside(k, y, i)
            &&& line_start(k, x, rs + i) == rs + line_start(k, y, i)
            &&& line_cuts(k, x, rs + i) == line_cuts(k, y, i)
            &&& i < y.len() ==> stop_at(k, x, rs + i) == stop_at(k, y, i)
            &&& i < y.len() ==> cut_at(k, x, rs + i) == cut_at(k, y, i)
            &&& forall|n: int| i < y.len() ==> #[trigger] bad_line(k, y, n, i) == bad_line(
                k,
                x,
                n,
                rs + i,
            )
        }),
    decreases i,
{
    let y = x.subrange(rs, end);
    starts_before(k, x, rs);
    if i > 0 {
        restart_lines(k, x, rs, end, i - 1);
        assert(y[i - 1] == x[rs + i - 1]);
        assert(rs + i - 1 == rs + (i - 1));
        assert(inside(k, x, rs + i) == (inside(k, x, rs + i - 1) != quote_at(k, x, rs + i - 1)));
    }
    if i < y.len() {
        assert(y[i] == x[rs + i]);
        assert(inside(k, x, rs + i + 1) == (inside(k, x, rs + i) != quote_at(k, x, rs + i)));
        assert(inside(k, y, i + 1) == (inside(k, y, i) != quote_at(k, y, i)));
    }
}

/// From `rs` to `end` the input shows a line of another number of fields than
/// expected, or one with too many.
pub open spec fn faulty(k: ScannerConfig, x: Seq<u8>, n: int, rs: int, end: int) -> bool {
    ||| exists|j: int| rs <= j < end && #[trigger] bad_line(k, x, n, j)
    ||| exists|j: int| rs <= j < end && #[trigger] line_cuts(k, x, j + 1) >= n
    ||| {
        &&& end == x.len()
        &&& !inside(k, x, end)
        &&& line_start(k, x, end) < end
        &&& line_cuts(k, x, end) + 1 != n
    }
}

/// Without a terminator a line goes on.
proof fn line_goes_on(k: ScannerConfig, x: Seq<u8>, a: int, b: int)
    requires
        0 <= a <= b,
        forall|i: int| a <= i < b ==> !#[trigger] stop_at(k, x, i),
    ensures
        line_start(k, x, b) == line_start(k, x, a),
        line_cuts(k, x, b) >= line_cuts(k, x, a),
    decreases b - a,
{
    if a < b {
        line_goes_on(k, x, a, b - 1);
        assert(!stop_at(k, x, b - 1));
    }
}

/// A line with too many fields stays so, or ends badly.
proof fn too_many_stay(k: ScannerConfig, x: Seq<u8>, n: int, a: int, b: int)
    requires
        1 <= n,
        0 <= a <= b,
        line_cuts(k, x, a) >= n,
        forall|j: int| a <= j < b ==> !#[trigger] bad_line(k, x, n, j),
    ensures
        line_cuts(k, x, b) >= n,
        line_start(k, x, b) == line_start(k, x, a),
        forall|j: int| a <= j < b ==> !#[trigger] stop_at(k, x, j),
    decreases b - a,
{
    if a < b {
        too_many_stay(k, x, n, a, b - 1);
        starts_before(k, x, b - 1);
        assert(!bad_line(k, x, n, b - 1));
    }
}

/// The error that reports what was located.
pub open spec fn count_error(expected: usize, found: usize, at: int) -> Error {
    Error::NumberOfFields {
        expected,
        found,
        position: Position { byte_offset: at as usize },
    }
}

/// What is located in a faulty input is reported of it.
pub proof fn faulty_is_reported(
    c: Config,
    p: Pass,
    rs: int,
    end: int,
    start: int,
    found: usize,
)
    requires
        readable(c),
        p.wf(),
        starts_clean(chars_of(c), p.inp),
        0 <= rs <= end <= p.inp.len(),
        !inside(chars_of(c), p.inp, rs),
        line_start(chars_of(c), p.inp, rs) == rs,
        forall|j: int|
            0 <= j < rs ==> !#[trigger] bad_line(
                chars_of(c),
                p.inp,
                c.field_count->0 as int,
                j,
            ),
        faulty(chars_of(c), p.inp, c.field_count->0 as int, rs, end),
        located(
            chars_of(c),
            p.inp.subrange(rs, end),
            c.field_count->0 as int,
            start,
            found as int,
        ),
    ensures
        eager_report(c, p, count_error(c.field_count->0, found, p.base + rs + start)),
{
    readable_bytes(c);
    let k = chars_of(c);
    let x = p.inp;
    let n = c.field_count->0 as int;
    let y = x.subrange(rs, end);
    let e = count_error(c.field_count->0, found, p.base + rs + start);
    let all = outcome(c, beyond(x), x);
    if exists|i: int|
        {
            &&& 0 <= i < y.len()
            &&& #[trigger] bad_line(k, y, n, i)
            &&& forall|j: int| 0 <= j < i ==> !#[trigger] bad_line(k, y, n, j)
            &&& start == line_start(k, y, i)
            &&& found == line_cuts(k, y, i) + 1
        } {
        let i = choose|i: int|
            {
                &&& 0 <= i < y.len()
                &&& #[trigger] bad_line(k, y, n, i)
                &&& forall|j: int| 0 <= j < i ==> !#[trigger] bad_line(k, y, n, j)
                &&& start == line_start(k, y, i)
                &&& found == line_cuts(k, y, i) + 1
            };
        restart_lines(k, x, rs, end, i);
        assert(bad_line(k, x, n, rs + i));
        assert forall|j: int| 0 <= j < rs + i implies !#[trigger] bad_line(k, x, n, j) by {
            if j >= rs {
                restart_lines(k, x, rs, end, j - rs);
                assert(!bad_line(k, y, n, j - rs));
                assert(rs + (j - rs) == j);
            }
        }
        scan_lines(c, x, beyond(x), (rs + i) as nat);
        scan_halted(c, beyond(x), x, (rs + i + 1) as nat, x.len());
        assert(e == error_of(all.end->Err_0, p.base));
    } else {
        let l = y.len() as int;
        restart_lines(k, x, rs, end, l);
        assert(rs + l == end);
        assert forall|j: int| 0 <= j < end implies !#[trigger] bad_line(k, x, n, j) by {
            if j >= rs {
                restart_lines(k, x, rs, end, j - rs);
                assert(!bad_line(k, y, n, j - rs));
                assert(rs + (j - rs) == j);
            }
        }
        assert(found == line_cuts(k, x, end) + 1);
        assert(rs + start == line_start(k, x, end));
        starts_before(k, x, end);
        if exists|j: int| rs <= j < end && #[trigger] line_cuts(k, x, j + 1) >= n {
            let j = choose|j: int| rs <= j < end && #[trigger] line_cuts(k, x, j + 1) >= n;
            too_many_stay(k, x, n, j + 1, end);
            unfinished_is_reported(c, p, end, e);
        } else {
            // the last line is at fault, and ends with the input
            scan_lines(c, x, beyond(x), x.len());
            last_line_ends(c, x);
            assert(all.end == Err::<Option<int>, Failure>(
                Failure::Arity {
                    expected: c.field_count->0,
                    found: line_cuts(k, x, end) + 1,
                    at: line_start(k, x, end),
                },
            ));
            assert(e == error_of(all.end->Err_0, p.base));
        }
    }
}

/// A last line that is not inside quotes ends with the input, as a record.
pub proof fn last_line_ends(c: Config, x: Seq<u8>)
    requires
        readable(c),
        starts_clean(chars_of(c), x),
        forall|j: int|
            0 <= j < x.len() ==> !#[trigger] bad_line(
                chars_of(c),
                x,
                c.field_count->0 as int,
                j,
            ),
        line_start(chars_of(c), x, x.len() as int) < x.len(),
    ensures
        ({
            let k = chars_of(c);
            let n = c.field_count->0 as int;
            let len = x.len() as int;
            let all = outcome(c, beyond(x), x);
            &&& !inside(k, x, len) && line_cuts(k, x, len) + 1 != n ==> all.end == Err::<
                Option<int>,
                Failure,
            >(
                Failure::Arity {
                    expected: c.field_count->0,
                    found: line_cuts(k, x, len) + 1,
                    at: line_start(k, x, len),
                },
            )
            &&& inside(k, x, len) ==> all.end == Err::<Option<int>, Failure>(
                Failure::Unclosed {
                    at: field_start(k, x, len),
                    record: line_start(k, x, len),
                    fields: line_cuts(k, x, len) + 1,
                },
            )
        }),
{
    readable_bytes(c);
    let k = chars_of(c);
    let len = x.len() as int;
    scan_lines(c, x, beyond(x), x.len());
    let s = scan(c, beyond(x), x, x.len());
    assert(s.state != State::RecordStart) by {
        if !inside(k, x, len) && term_at(k, x, len - 1) {
            assert(inside(k, x, len) == (inside(k, x, len - 1) != quote_at(k, x, len - 1)));
            assert(stop_at(k, x, len - 1));
        }
    }
}

/// A line that already has too many fields is at fault, wherever it ends.
proof fn unfinished_is_reported(c: Config, p: Pass, end: int, e: Error)
    requires
        readable(c),
        p.wf(),
        starts_clean(chars_of(c), p.inp),
        0 <= end <= p.inp.len(),
        forall|j: int|
            0 <= j < end ==> !#[trigger] bad_line(
                chars_of(c),
                p.inp,
                c.field_count->0 as int,
                j,
            ),
        line_cuts(chars_of(c), p.inp, end) >= c.field_count->0,
        e == count_error(
            c.field_count->0,
            (line_cuts(chars_of(c), p.inp, end) + 1) as usize,
            p.base + line_start(chars_of(c), p.inp, end),
        ),
    ensures
        eager_report(c, p, e),
{
    readable_bytes(c);
    let k = chars_of(c);
    let x = p.inp;
    let n = c.field_count->0 as int;
    starts_before(k, x, end);
    if exists|j: int| end <= j < x.len() && #[trigger] bad_line(k, x, n, j) {
        let j0 = choose|j: int| end <= j < x.len() && #[trigger] bad_line(k, x, n, j);
        let j = first_bad(k, x, n, end, j0);
        too_many_stay(k, x, n, end, j);
        line_goes_on(k, x, end, j);
        starts_before(k, x, j);
        scan_lines(c, x, beyond(x), j as nat);
        scan_halted(c, beyond(x), x, (j + 1) as nat, x.len());
        let all = outcome(c, beyond(x), x);
        assert(all.end == Err::<Option<int>, Failure>(
            Failure::Arity {
                expected: c.field_count->0,
                found: line_cuts(k, x, j) + 1,
                at: line_start(k, x, j),
            },
        ));
        assert(counts_fields(e, c.field_count->0, p.base + line_start(k, x, j)));
    } else {
        let len = x.len() as int;
        too_many_stay(k, x, n, end, len);
        line_goes_on(k, x, end, len);
        starts_before(k, x, len);
        last_line_ends(c, x);
        assert(counts_fields(e, c.field_count->0, p.base + line_start(k, x, len)));
    }
}

/// The first bad line in a range that has one.
proof fn first_bad(k: ScannerConfig, x: Seq<u8>, n: int, a: int, b: int) -> (f: int)
    requires
        a <= b,
        bad_line(k, x, n, b),
    ensures
        a <= f <= b,
        bad_line(k, x, n, f),
        forall|i: int| a <= i < f ==> !#[trigger] bad_line(k, x, n, i),
    decreases b - a,
{
    if exists|i: int| a <= i < b && #[trigger] bad_line(k, x, n, i) {
        let i = choose|i: int| a <= i < b && #[trigger] bad_line(k, x, n, i);
        first_bad(k, x, n, a, i)
    } else {
        b
    }
}

/// An input whose last line is not terminated means what it means with a
/// terminator behind it.
pub proof fn closing_terminator(c: Config, boundary: int, x: Seq<u8>)
    requires
        readable(c),
        x.len() > 0,
        !term_at(chars_of(c), x, x.len() - 1),
    ensures
        outcome(c, boundary, x.push(chars_of(c).term)) == outcome(c, boundary, x),
{
    let t = chars_of(c).term;
    let y = x.push(t);
    let len = x.len();
    readable_bytes(c);
    assert(c.terminator.ends(t));
    scan_same(c, boundary, x, y, len);
    let s = scan(c, boundary, x, len);
    if s.halt.is_some() {
        scan_halted(c, boundary, y, len, len + 1);
    } else {
        scan_running(c, boundary, x, (len - 1) as nat, len);
        let b = scan(c, boundary, x, (len - 1) as nat);
        scan_bounds(c, boundary, x, (len - 1) as nat);
        scan_bounds(c, boundary, x, len);
        no_comment(c, boundary, x, (len - 1) as nat);
        assert(!c.terminator.ends(x[len - 1]));
        assert(s == advance(c, boundary, b, x[len - 1], len - 1));
        assert(y[len as int] == t);
        assert(scan(c, boundary, y, len + 1) == advance(c, boundary, s, t, len as int));
        assert(s.state != State::RecordStart);
        assert(s.state != State::InEscapedQuote);
    }
}

/// A dialect without comments never reads one.
proof fn no_comment(c: Config, boundary: int, x: Seq<u8>, n: nat)
    requires
        c.comment is None,
    ensures
        scan(c, boundary, x, n).state != State::InComment,
    decreases n,
{
    if n > 0 {
        no_comment(c, boundary, x, (n - 1) as nat);
    }
}

} // verus!
