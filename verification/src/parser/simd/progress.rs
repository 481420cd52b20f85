//! Where a stepper stands in the input, and what its next record is.

use vstd::prelude::*;

use super::chars_of;
use super::faults::{faulty, faulty_is_reported};
use super::fieldcount::{locate, located};
use super::fields::{
    bad_line, bounded_line, field_start, first_stop, held, irregular_line, line_cuts, line_start,
    no_stop_between, pieces, pieces_grow, rank, record_completes, regular, regular_lines,
    run_begin, run_closes, scan_lines, starts_before, starts_clean,
};
use super::findstart::{readable, readable_bytes};
use super::masks::{
    before_edge, behind_edge, cut_at, inside, quote_at, run_end, run_start, stop_at, term_at,
};
use super::scan::ScannerConfig;
use super::stream::{first_irregular, lines_of_start, mask_at_start, rank_of_start};
use crate::config::Config;
use crate::error::{Error, Position};
use crate::parser::dfa::table::State;
use crate::parser::driver::{eager_report, starts, Pass};
use crate::parser::grammar::{
    beyond, bounded_scan, open_since, outcome, scan, scan_grows, scan_halted,
    scan_prefixes_outcome, scan_same, widest, widest_bounds, Outcome, Record,
};

verus! {

/// Where records are emitted from: the input, how far its masks are known, how
/// much of it has left the buffer, how many records are out, and where the next
/// one starts.
pub struct Progress {
    pub x: Seq<u8>,
    pub z: int,
    pub consumed: int,
    pub q: int,
    pub rs: int,
}

impl Progress {
    /// How many fields are out.
    pub open spec fn done(self, c: Config) -> int {
        self.q * (c.field_count->0 as int)
    }

    /// The next record starts where one can.
    pub open spec fn sound(self, c: Config) -> bool {
        let k = chars_of(c);
        &&& readable(c)
        &&& starts_clean(k, self.x)
        &&& 0 <= self.consumed <= self.rs
        &&& 0 <= self.q
        &&& -64 <= self.z
        &&& self.rs <= self.z || self.rs == 0
        &&& self.rs <= self.x.len()
        &&& !term_at(k, self.x, self.rs)
        &&& !inside(k, self.x, self.rs)
        &&& line_start(k, self.x, self.rs) == self.rs
        &&& field_start(k, self.x, self.rs) == self.rs
        &&& pieces(k, self.x, self.rs).len() == self.done(c)
        &&& forall|i: int| 0 <= i < self.rs ==> !#[trigger] bad_line(
            k,
            self.x,
            c.field_count->0 as int,
            i,
        )
    }

    /// The record that the run of terminators at `j` completes.
    pub open spec fn record_at(self, c: Config, j: int) -> Record {
        let k = chars_of(c);
        let n = c.field_count->0 as int;
        held(k, self.x, pieces(k, self.x, j + 1).subrange(self.done(c), self.done(c) + n))
    }

    /// The run of terminators at `j` completes the next record.
    pub open spec fn completes(self, c: Config, j: int) -> bool {
        let k = chars_of(c);
        let n = c.field_count->0 as int;
        &&& self.rs <= j < self.z <= self.x.len()
        &&& run_start(k, self.x, j)
        &&& pieces(k, self.x, j).len() == self.done(c) + n - 1
    }

    /// The records before the next one are out, and the last of them ends at `end`.
    pub open spec fn caught_up(
        self,
        c: Config,
        p: Pass,
        log: Seq<Record>,
        end: Option<int>,
    ) -> bool {
        let s = scan(c, p.boundary, self.x, self.rs as nat);
        &&& self.q == log.len()
        &&& s.halt is None
        &&& s.state == State::RecordStart
        &&& s.records == log
        &&& s.last_end == end
    }
}

/// What the next record is, and where the pass stands after it.
pub proof fn next_record(
    c: Config,
    p: Pass,
    g: Progress,
    log: Seq<Record>,
    end: Option<int>,
    j: int,
    e: int,
)
    requires
        g.sound(c),
        regular(chars_of(c), g.x, c.field_count->0 as int, g.z),
        g.completes(c, j),
        g.caught_up(c, p, log, end),
        j <= e < g.x.len(),
        forall|i: int| j <= i <= e ==> #[trigger] stop_at(chars_of(c), g.x, i),
    ensures
        ({
            let k = chars_of(c);
            let record = g.record_at(c, j);
            let all = outcome(c, p.boundary, g.x);
            let next = scan(c, p.boundary, g.x, (e + 1) as nat);
            let far = scan(c, beyond(g.x), g.x, (j + 1) as nat);
            let at = if p.boundary > j {
                p.boundary
            } else {
                j
            };
            &&& far.halt is None
            &&& far.records == log.push(record)
            &&& log.len() < all.records.len()
            &&& starts(log, all.records)
            &&& all.records[log.len() as int] == record
            &&& e >= p.boundary ==> all == (Outcome {
                records: log.push(record),
                end: Ok(Some(at)),
            })
            &&& e < p.boundary ==> {
                &&& next.halt is None
                &&& next.state == State::RecordStart
                &&& next.records == log.push(record)
                &&& next.last_end == Some(j)
            }
            &&& !inside(k, g.x, e + 1)
            &&& line_start(k, g.x, e + 1) == e + 1
            &&& field_start(k, g.x, e + 1) == e + 1
            &&& pieces(k, g.x, e + 1).len() == g.done(c) + c.field_count->0
            &&& forall|i: int| 0 <= i < e + 1 ==> !#[trigger] bad_line(
                k,
                g.x,
                c.field_count->0 as int,
                i,
            )
        }),
{
    let k = chars_of(c);
    let x = g.x;
    let far = beyond(x);
    let record = g.record_at(c, j);
    let all = outcome(c, p.boundary, x);
    record_completes(c, x, far, g.z, j, g.q);
    bounded_scan(c, p.boundary, x, g.rs as nat);
    no_stop_between(c, x, g.rs, j);
    bounded_line(c, x, p.boundary, g.rs as nat, j as nat);
    run_closes(c, x, p.boundary, j, e);
    scan_grows(c, far, x, g.rs as nat, j as nat);
    let s = scan(c, far, x, j as nat);
    let t = scan(c, far, x, (j + 1) as nat);
    assert(s.records.take(g.q) =~= s.records);
    assert(t.records =~= log.push(record));
    assert(log.push(record).take(log.len() as int) =~= log);
    if e < p.boundary {
        scan_prefixes_outcome(c, p.boundary, x, (e + 1) as nat);
        let some = log.push(record);
        assert(all.records.take(some.len() as int) == some);
        assert(all.records[log.len() as int] == some[log.len() as int]);
        assert(all.records.take(log.len() as int) =~= some.take(log.len() as int));
    }
    readable_bytes(c);
    run_is_behind(c, x, j, e + 1);
    assert forall|i: int| 0 <= i < e + 1 implies !#[trigger] bad_line(
        k,
        x,
        c.field_count->0 as int,
        i,
    ) by {
        if i > j {
            assert(stop_at(k, x, i - 1));
        }
    }
    assert(stop_at(k, x, e));
}

/// The fields of the lines up to `e` are those up to the start of the run that
/// reaches from `j` to `e`.
proof fn run_is_behind(c: Config, x: Seq<u8>, j: int, e: int)
    requires
        readable(c),
        0 <= j < e <= x.len(),
        forall|i: int| j <= i < e ==> #[trigger] stop_at(chars_of(c), x, i),
    ensures
        pieces(chars_of(c), x, e).len() == pieces(chars_of(c), x, j + 1).len(),
        line_start(chars_of(c), x, e) == e,
        field_start(chars_of(c), x, e) == e,
        !inside(chars_of(c), x, e),
    decreases e - j,
{
    assert(stop_at(chars_of(c), x, e - 1));
    if e > j + 1 {
        readable_bytes(c);
        run_is_behind(c, x, j, e - 1);
        assert(stop_at(chars_of(c), x, e - 2));
    }
}

/// Boundaries that are out of order mean a line with another number of fields.
/// Here `y` is the input `x`, with a terminator behind it or without.
pub proof fn irregular_is_faulty(
    c: Config,
    x: Seq<u8>,
    y: Seq<u8>,
    rs: int,
    a: int,
    b: int,
    end: int,
)
    requires
        readable(c),
        starts_clean(chars_of(c), y),
        y == x || (y == x.push(chars_of(c).term) && end == x.len()),
        regular(chars_of(c), y, c.field_count->0 as int, a),
        !regular(chars_of(c), y, c.field_count->0 as int, b),
        forall|j: int|
            0 <= j < rs ==> !#[trigger] bad_line(
                chars_of(c),
                x,
                c.field_count->0 as int,
                j,
            ),
        0 <= rs <= end <= x.len(),
        rs <= a || rs == 0,
        a <= b,
        b <= end || end == x.len(),
    ensures
        faulty(chars_of(c), x, c.field_count->0 as int, rs, end),
{
    let k = chars_of(c);
    let n = c.field_count->0 as int;
    readable_bytes(c);
    let i = first_irregular(k, y, n, a, b);
    assert(i < y.len());
    irregular_line(c, y, i);
    if cut_at(k, y, i) && line_cuts(k, y, i + 1) == n {
        assert(i < x.len());
        lines_of_start(k, x, y, x.len() as int, i + 1);
        assert(line_cuts(k, x, i + 1) >= n);
    } else {
        let j = run_begin(k, y, i + 1);
        assert(bad_line(k, y, n, j));
        if j < x.len() {
            lines_of_start(k, x, y, x.len() as int, j);
            assert(bad_line(k, x, n, j));
        } else {
            lines_of_start(k, x, y, x.len() as int, x.len() as int);
            assert(j == x.len());
            assert(inside(k, y, j + 1) == (inside(k, y, j) != quote_at(k, y, j)));
        }
    }
}

/// Turn a verifier rejection into a positioned `NumberOfFields` by
/// re-walking from the oldest record pending emission, at buffer offset `from`. The
/// count is a lower bound only of a record that runs past the end of `buf`.
pub fn arity_error(
    buf: &[u8],
    from: usize,
    n: usize,
    k: ScannerConfig,
    total_consumed: usize,
    Ghost(c): Ghost<Config>,
    Ghost(p): Ghost<Pass>,
    Ghost(g): Ghost<Progress>,
) -> (r: Error)
    requires
        p.wf(),
        g.sound(c),
        g.consumed == total_consumed - p.base,
        g.rs == g.consumed + from,
        k == chars_of(c),
        n == c.field_count->0,
        from <= buf@.len(),
        g.consumed + buf@.len() <= p.inp.len(),
        forall|i: int| from <= i < buf@.len() ==> buf@[i] == p.inp[g.consumed + i],
        g.x == p.inp,
        faulty(k, p.inp, n as int, g.rs, g.consumed + buf@.len()),
    ensures
        eager_report(c, p, r),
        r matches Error::NumberOfFields { expected, found, position } && expected == n && located(
            k,
            buf@.skip(from as int),
            n as int,
            position.byte_offset - total_consumed - from,
            found as int,
        ),
{
    proof {
        readable_bytes(c);
        assert(buf@.skip(from as int) =~= p.inp.subrange(g.rs, g.consumed + buf@.len()));
    }
    let (start, found) = locate(buf, from, n, k);
    proof {
        faulty_is_reported(c, p, g.rs, g.consumed + buf@.len(), start - from, found);
    }
    Error::NumberOfFields {
        expected: n,
        found,
        position: Position { byte_offset: total_consumed + start },
    }
}

/// The input with a terminator behind it, if it does not end with one.
pub open spec fn closed_input(k: ScannerConfig, x: Seq<u8>) -> Seq<u8> {
    if x.len() > 0 && !term_at(k, x, x.len() - 1) {
        x.push(k.term)
    } else {
        x
    }
}

/// What holds of an input holds of the same input with a terminator behind it.
pub proof fn closed_progress(c: Config, p: Pass, g: Progress, log: Seq<Record>, end: Option<int>)
    requires
        g.sound(c),
        g.x == p.inp,
        g.z + 64 <= p.inp.len(),
        p.inp.len() > 0,
        regular(chars_of(c), g.x, c.field_count->0 as int, g.z),
        g.caught_up(c, p, log, end),
    ensures
        ({
            let k = chars_of(c);
            let y = closed_input(k, p.inp);
            let h = Progress { x: y, ..g };
            &&& h.sound(c)
            &&& regular(k, y, c.field_count->0 as int, g.z)
            &&& rank(k, y, g.z) == rank(k, g.x, g.z)
            &&& h.caught_up(c, p, log, end)
        }),
{
    let k = chars_of(c);
    let n = c.field_count->0 as int;
    let x = p.inp;
    let y = closed_input(k, x);
    let z = g.z;
    let len = x.len() as int;
    assert forall|j: int| 0 <= j < g.rs implies !#[trigger] bad_line(k, y, n, j) by {
        lines_of_start(k, x, y, len, j);
        assert(!bad_line(k, x, n, j));
    }
    lines_of_start(k, x, y, len, g.rs);
    assert forall|i: int| 0 <= i < z && #[trigger] behind_edge(k, y, i) implies (run_end(
        k,
        y,
        i,
    ) <==> (rank(k, y, i) as int + 1) % n == 0) by {
        mask_at_start(k, x, y, i);
        rank_of_start(k, x, y, len, i);
        assert(behind_edge(k, x, i));
    }
    rank_of_start(k, x, y, len, z);
    scan_same(c, p.boundary, x, y, g.rs as nat);
}

/// Once the masks show no further record, all records are out.
pub proof fn all_out(c: Config, p: Pass, g: Progress, log: Seq<Record>, end: Option<int>)
    requires
        g.sound(c),
        g.z == g.x.len(),
        regular(chars_of(c), g.x, c.field_count->0 as int, g.z),
        g.caught_up(c, p, log, end),
        pieces(chars_of(c), g.x, g.z).len() < g.done(c) + c.field_count->0,
        term_at(chars_of(c), g.x, g.x.len() - 1),
        !inside(chars_of(c), g.x, g.x.len() as int),
    ensures
        outcome(c, p.boundary, g.x) == (Outcome { records: log, end: Ok(end) }),
{
    let k = chars_of(c);
    let n = c.field_count->0 as int;
    let x = g.x;
    let len = x.len() as int;
    readable_bytes(c);
    if g.rs < len {
        assert(stop_at(k, x, len - 1));
        let f = first_stop(k, x, g.rs, len - 1);
        assert(f > g.rs);
        regular_lines(c, x, len, len);
        starts_before(k, x, g.rs);
        line_of_pieces(c, x, g.rs, f);
        assert(!bad_line(k, x, n, f));
        assert(!stop_at(k, x, f - 1));
        assert(before_edge(k, x, f));
        pieces_grow(k, x, f + 1, len);
    }
}

/// Where no record is complete but for one whose terminators go on, all that is not yet
/// out is one stretch.
pub proof fn held_back(c: Config, p: Pass, g: Progress, log: Seq<Record>, end: Option<int>)
    requires
        g.sound(c),
        g.x == p.inp,
        g.z <= g.x.len(),
        regular(chars_of(c), g.x, c.field_count->0 as int, g.z),
        g.caught_up(c, p, log, end),
        forall|j: int, i: int|
            #![trigger g.completes(c, j), stop_at(chars_of(c), g.x, i)]
            g.completes(c, j) && j <= i < g.z ==> stop_at(chars_of(c), g.x, i),
    ensures
        g.z - g.rs <= widest(c, true, p.inp, p.inp.len()),
{
    widest_bounds(c, true, p.inp, 0, p.inp.len());
    if g.rs < g.z {
        bounded_scan(c, p.boundary, g.x, g.rs as nat);
        held_to(c, g, g.z);
        widest_bounds(c, true, p.inp, g.z as nat, p.inp.len());
    }
}

/// The record that starts at the next one's start is what is under way.
proof fn held_to(c: Config, g: Progress, n: int)
    requires
        g.sound(c),
        g.z <= g.x.len(),
        g.rs < n <= g.z,
        regular(chars_of(c), g.x, c.field_count->0 as int, g.z),
        scan(c, beyond(g.x), g.x, g.rs as nat).halt is None,
        scan(c, beyond(g.x), g.x, g.rs as nat).state == State::RecordStart,
        forall|j: int, i: int|
            #![trigger g.completes(c, j), stop_at(chars_of(c), g.x, i)]
            g.completes(c, j) && j <= i < g.z ==> stop_at(chars_of(c), g.x, i),
    ensures
        open_since(c, true, g.x, n as nat) == Some(g.rs),
    decreases n,
{
    let k = chars_of(c);
    let fields = c.field_count->0 as int;
    let x = g.x;
    let m = n - 1;
    let s = scan(c, beyond(x), x, m as nat);
    readable_bytes(c);
    if m > g.rs {
        held_to(c, g, m);
        if exists|i: int| g.rs <= i < m && #[trigger] stop_at(k, x, i) {
            let i = choose|i: int| g.rs <= i < m && #[trigger] stop_at(k, x, i);
            let f = first_stop(k, x, g.rs, i);
            assert(f > g.rs);
            starts_before(k, x, g.rs);
            line_of_pieces(c, x, g.rs, f);
            no_bad_line_before(c, g, f);
            run_goes_on(c, g, f);
            assert(stop_at(k, x, m));
            scan_lines(c, x, beyond(x), f as nat);
            if bad_line(k, x, fields, f) {
                scan_halted(c, beyond(x), x, (f + 1) as nat, m as nat);
            } else {
                assert(!bad_line(k, x, fields, f));
                no_bad_line_along(c, g, f, m);
                scan_lines(c, x, beyond(x), m as nat);
            }
        } else {
            no_bad_line_before(c, g, m);
            scan_lines(c, x, beyond(x), m as nat);
            if s.state == State::RecordStart {
                assert(stop_at(k, x, m - 1));
            }
        }
    }
}

/// Before the first terminator behind the start of the next record no line is bad.
proof fn no_bad_line_before(c: Config, g: Progress, f: int)
    requires
        g.sound(c),
        forall|i: int| g.rs <= i < f ==> !#[trigger] stop_at(chars_of(c), g.x, i),
    ensures
        forall|j: int|
            0 <= j < f ==> !#[trigger] bad_line(chars_of(c), g.x, c.field_count->0 as int, j),
{
    assert forall|j: int| 0 <= j < f implies !#[trigger] bad_line(
        chars_of(c),
        g.x,
        c.field_count->0 as int,
        j,
    ) by {
        if j >= g.rs {
            assert(!stop_at(chars_of(c), g.x, j));
        }
    }
}

/// Along the run of terminators from `f` to `m` no line is bad but for the first.
proof fn no_bad_line_along(c: Config, g: Progress, f: int, m: int)
    requires
        g.sound(c),
        forall|j: int|
            0 <= j <= f ==> !#[trigger] bad_line(chars_of(c), g.x, c.field_count->0 as int, j),
        forall|i: int| f <= i < m ==> #[trigger] stop_at(chars_of(c), g.x, i),
    ensures
        forall|j: int|
            0 <= j < m ==> !#[trigger] bad_line(chars_of(c), g.x, c.field_count->0 as int, j),
{
    assert forall|j: int| 0 <= j < m implies !#[trigger] bad_line(
        chars_of(c),
        g.x,
        c.field_count->0 as int,
        j,
    ) by {
        if j > f {
            assert(stop_at(chars_of(c), g.x, j - 1));
        }
    }
}

/// The run of terminators that the next record ends with goes on as far as is known.
proof fn run_goes_on(c: Config, g: Progress, f: int)
    requires
        g.sound(c),
        g.z <= g.x.len(),
        g.rs < f < g.z,
        regular(chars_of(c), g.x, c.field_count->0 as int, g.z),
        run_start(chars_of(c), g.x, f),
        pieces(chars_of(c), g.x, f).len() == g.done(c) + line_cuts(chars_of(c), g.x, f),
        line_start(chars_of(c), g.x, f) == g.rs,
        forall|j: int, i: int|
            #![trigger g.completes(c, j), stop_at(chars_of(c), g.x, i)]
            g.completes(c, j) && j <= i < g.z ==> stop_at(chars_of(c), g.x, i),
    ensures
        forall|i: int| f <= i < g.z ==> #[trigger] stop_at(chars_of(c), g.x, i),
{
    let k = chars_of(c);
    let x = g.x;
    if exists|i: int| f <= i < g.z && !#[trigger] stop_at(k, x, i) {
        let i = choose|i: int| f <= i < g.z && !#[trigger] stop_at(k, x, i);
        regular_lines(c, x, g.z, i);
        assert(!bad_line(k, x, c.field_count->0 as int, f));
        assert(g.completes(c, f));
        assert(stop_at(k, x, i));
    }
}

/// The fields on a line, counted.
proof fn line_of_pieces(c: Config, x: Seq<u8>, a: int, i: int)
    requires
        readable(c),
        0 <= a <= i <= x.len(),
        line_start(chars_of(c), x, a) == a,
        line_cuts(chars_of(c), x, a) == 0,
        forall|j: int| a <= j < i ==> !#[trigger] stop_at(chars_of(c), x, j),
    ensures
        line_start(chars_of(c), x, i) == a,
        pieces(chars_of(c), x, i).len() == pieces(chars_of(c), x, a).len() + line_cuts(
            chars_of(c),
            x,
            i,
        ),
    decreases i,
{
    if a < i {
        line_of_pieces(c, x, a, i - 1);
        assert(!stop_at(chars_of(c), x, i - 1));
    }
}

} // verus!
