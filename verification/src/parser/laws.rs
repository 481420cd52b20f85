//! What holds of every input, whatever the parser.

use vstd::prelude::*;

use super::dfa::table::State;
use super::driver::{run_returns, turned_down, not_text, Pass};
use super::fold::{Accumulator, Fold};
use super::grammar::{
    advance, arity_ok, beyond, bounded_scan, fresh, is_space, outcome, outcome_restart, scan,
    scan_blank, scan_bounds, search, shaped, trim_end, trim_start, Found, Halt, Probe, Record,
    Scan,
};
use super::output::Output;
use crate::config::{distinct_bytes, Config};

verus! {

/// Every record that is handed out has the number of fields that was asked for.
pub proof fn records_have_the_arity(c: Config, boundary: int, inp: Seq<u8>, r: int)
    requires
        c.field_count is Some,
        0 <= r < outcome(c, boundary, inp).records.len(),
    ensures
        outcome(c, boundary, inp).records[r].len() == c.field_count->0,
{
    scanned_arity(c, boundary, inp, inp.len());
    let s = scan(c, boundary, inp, inp.len());
    if r < s.records.len() {
        assert(s.records[r].len() == c.field_count->0);
    }
}

/// The records of a pass under way have the number of fields that was asked for.
proof fn scanned_arity(c: Config, boundary: int, inp: Seq<u8>, n: nat)
    requires
        c.field_count is Some,
    ensures
        forall|r: int|
            0 <= r < scan(c, boundary, inp, n).records.len() ==> (#[trigger] scan(
                c,
                boundary,
                inp,
                n,
            ).records[r]).len() == c.field_count->0,
    decreases n,
{
    if n > 0 {
        scanned_arity(c, boundary, inp, (n - 1) as nat);
    }
}

/// A field without space at either end.
pub open spec fn trimmed(f: Seq<u8>) -> bool {
    f.len() > 0 ==> !is_space(f[0]) && !is_space(f.last())
}

/// What is left of the end is trimmed, and starts as before.
proof fn trim_end_is(s: Seq<u8>)
    ensures
        trim_end(s).len() <= s.len(),
        trim_end(s) == s.take(trim_end(s).len() as int),
        trim_end(s).len() > 0 ==> !is_space(trim_end(s).last()),
    decreases s.len(),
{
    if s.len() > 0 && is_space(s.last()) {
        trim_end_is(s.drop_last());
        let n = trim_end(s).len() as int;
        assert(s.take(n) =~= s.drop_last().take(n));
    } else {
        assert(s.take(s.len() as int) =~= s);
    }
}

/// What is left of the start is trimmed.
proof fn trim_start_is(s: Seq<u8>)
    ensures
        trim_start(s).len() > 0 ==> !is_space(trim_start(s)[0]),
    decreases s.len(),
{
    if s.len() > 0 && is_space(s[0]) {
        trim_start_is(s.skip(1));
    }
}

/// A field in its final shape is trimmed, if it has to be.
proof fn shaped_is_trimmed(c: Config, s: Seq<u8>)
    requires
        c.trim,
    ensures
        trimmed(shaped(c, s)),
{
    trim_start_is(s);
    trim_end_is(trim_start(s));
}

/// With trimming on, no field starts or ends with space.
pub proof fn fields_are_trimmed(c: Config, boundary: int, inp: Seq<u8>, r: int, f: int)
    requires
        c.trim,
        0 <= r < outcome(c, boundary, inp).records.len(),
        0 <= f < outcome(c, boundary, inp).records[r].len(),
    ensures
        trimmed(outcome(c, boundary, inp).records[r][f]),
{
    scanned_trimmed(c, boundary, inp, inp.len());
    let s = scan(c, boundary, inp, inp.len());
    shaped_is_trimmed(c, s.cur);
    if r < s.records.len() {
        assert(all_trimmed(s.records[r]));
    } else {
        let record = s.fields.push(shaped(c, s.cur));
        assert(all_trimmed(record));
    }
}

/// Every field of `record` is trimmed.
spec fn all_trimmed(record: Record) -> bool {
    forall|f: int| 0 <= f < record.len() ==> trimmed(#[trigger] record[f])
}

/// The fields of a pass under way are trimmed.
proof fn scanned_trimmed(c: Config, boundary: int, inp: Seq<u8>, n: nat)
    requires
        c.trim,
    ensures
        all_trimmed(scan(c, boundary, inp, n).fields),
        forall|r: int|
            0 <= r < scan(c, boundary, inp, n).records.len() ==> all_trimmed(
                #[trigger] scan(c, boundary, inp, n).records[r],
            ),
    decreases n,
{
    if n > 0 {
        scanned_trimmed(c, boundary, inp, (n - 1) as nat);
        let s = scan(c, boundary, inp, (n - 1) as nat);
        shaped_is_trimmed(c, s.cur);
        shaped_is_trimmed(c, s.cur.push(inp[n - 1]));
    }
}

/// Blank lines yield no records: terminators in front of an input change nothing
/// but where its records are.
pub proof fn blank_lines_yield_nothing(c: Config, inp: Seq<u8>, n: nat)
    requires
        n <= inp.len(),
        forall|i: int| 0 <= i < n ==> c.terminator.ends(#[trigger] inp[i]),
    ensures
        outcome(c, beyond(inp), inp).records == outcome(
            c,
            beyond(inp.skip(n as int)),
            inp.skip(n as int),
        ).records,
{
    scan_blank(c, beyond(inp), inp, 0, n);
    outcome_restart(c, beyond(inp), inp, n);
    let rest = inp.skip(n as int);
    assert(beyond(rest) == beyond(inp) - n);
    let after = outcome(c, beyond(rest), rest).records;
    assert(Seq::<Record>::empty() + after =~= after);
}

/// A byte that ends a comment line.
pub open spec fn ends_comment(c: Config, b: u8) -> bool {
    b == 0x0A || c.terminator.ends(b)
}

/// A comment line yields no record: with the line in front, an input has the same
/// records.
pub proof fn comment_lines_yield_nothing(c: Config, inp: Seq<u8>, n: nat)
    requires
        n < inp.len(),
        c.comment == Some(inp[0]),
        !c.terminator.ends(inp[0]),
        0 < n,
        forall|i: int| 0 < i < n ==> !ends_comment(c, #[trigger] inp[i]),
        ends_comment(c, inp[n as int]),
    ensures
        outcome(c, beyond(inp), inp).records == outcome(
            c,
            beyond(inp.skip(n as int + 1)),
            inp.skip(n as int + 1),
        ).records,
{
    in_comment(c, inp, n);
    let s = scan(c, beyond(inp), inp, n);
    let t = scan(c, beyond(inp), inp, n + 1);
    assert(t == advance(c, beyond(inp), s, inp[n as int], n as int));
    outcome_restart(c, beyond(inp), inp, n + 1);
    let rest = inp.skip(n as int + 1);
    assert(beyond(rest) == beyond(inp) - (n + 1));
    let after = outcome(c, beyond(rest), rest).records;
    assert(Seq::<Record>::empty() + after =~= after);
}

/// A pass inside a comment line.
proof fn in_comment(c: Config, inp: Seq<u8>, n: nat)
    requires
        0 < n <= inp.len(),
        c.comment == Some(inp[0]),
        !c.terminator.ends(inp[0]),
        forall|i: int| 0 < i < n ==> !ends_comment(c, #[trigger] inp[i]),
    ensures
        ({
            let s = scan(c, beyond(inp), inp, n);
            &&& s.halt is None
            &&& s.state == State::InComment
            &&& s.records == Seq::<Record>::empty()
        }),
    decreases n,
{
    assert(scan(c, beyond(inp), inp, 0) == fresh());
    if n > 1 {
        in_comment(c, inp, (n - 1) as nat);
        assert(!ends_comment(c, inp[n - 1]));
    }
}

/// A search from the start of a record goes as a pass does, as long as no record
/// has come to its end.
pub proof fn search_is_scan(c: Config, inp: Seq<u8>, n: nat)
    requires
        n <= inp.len(),
        search(c, Probe::Off, State::RecordStart, inp, n).stop is None,
    ensures
        ({
            let s = scan(c, beyond(inp), inp, n);
            &&& s.halt is None
            &&& s.state == search(c, Probe::Off, State::RecordStart, inp, n).state
            &&& s.records == Seq::<Record>::empty()
        }),
    decreases n,
{
    if n > 0 {
        search_is_scan(c, inp, (n - 1) as nat);
        scan_bounds(c, beyond(inp), inp, (n - 1) as nat);
    }
}

/// Where a search stops, it stopped there first.
pub proof fn stops_first(c: Config, inp: Seq<u8>, n: nat, i: int)
    requires
        search(c, Probe::Off, State::RecordStart, inp, n).stop == Some(Found::Start(i)),
    ensures
        0 <= i < n,
        search(c, Probe::Off, State::RecordStart, inp, i as nat).stop is None,
        search(c, Probe::Off, State::RecordStart, inp, (i + 1) as nat).stop == Some(
            Found::Start(i),
        ),
    decreases n,
{
    if n > 0 {
        let s = search(c, Probe::Off, State::RecordStart, inp, (n - 1) as nat);
        if s.stop is Some {
            stops_first(c, inp, (n - 1) as nat, i);
        }
    }
}

/// What a search for the end of the header turns down, a pass fails on.
pub proof fn rejected_fails(c: Config, inp: Seq<u8>, n: nat)
    requires
        n <= inp.len(),
        search(c, Probe::Off, State::RecordStart, inp, n).stop matches Some(Found::Rejected(_)),
    ensures
        scan(c, beyond(inp), inp, n).halt matches Some(Halt::Failed(_)),
    decreases n,
{
    if n > 0 {
        if search(c, Probe::Off, State::RecordStart, inp, (n - 1) as nat).stop is Some {
            rejected_fails(c, inp, (n - 1) as nat);
        } else {
            search_is_scan(c, inp, (n - 1) as nat);
        }
    }
}

/// The header is the first record. What is skipped as one is what a pass that does
/// not know of headers hands out first, and the records after it are the same.
pub proof fn the_header_is_the_first_record(c: Config, inp: Seq<u8>, i: int)
    requires
        search(c, Probe::Off, State::RecordStart, inp, inp.len()).stop == Some(Found::Start(i)),
        scan(c, beyond(inp), inp, (i + 1) as nat).halt is None,
    ensures
        ({
            let all = outcome(c, beyond(inp), inp).records;
            let rest = inp.skip(i);
            &&& all.len() > 0
            &&& all.drop_first() == outcome(c, beyond(rest), rest).records
            &&& outcome(c, beyond(inp), inp).end is Ok <==> outcome(c, beyond(rest), rest).end is Ok
        }),
{
    stops_first(c, inp, inp.len(), i);
    search_is_scan(c, inp, i as nat);
    let s = scan(c, beyond(inp), inp, i as nat);
    let k = (i + 1) as nat;
    let t = scan(c, beyond(inp), inp, k);
    assert(t == advance(c, beyond(inp), s, inp[i], i));
    assert(t.records.len() == 1);
    outcome_restart(c, beyond(inp), inp, k);
    let rest = inp.skip(i);
    let behind = inp.skip(i + 1);
    assert(inp.skip(k as int) =~= behind);
    assert(rest.skip(1) =~= behind);
    assert(c.terminator.ends(inp[i]));
    blank_lines_yield_nothing(c, rest, 1);
    assert(rest[0] == inp[i]);
    scan_blank(c, beyond(rest), rest, 0, 1);
    outcome_restart(c, beyond(rest), rest, 1);
    let after = outcome(c, beyond(behind), behind).records;
    assert((t.records + after).drop_first() =~= after);
}

/// `f` with every quote doubled.
pub open spec fn doubled_quotes(q: u8, f: Seq<u8>) -> Seq<u8>
    decreases f.len(),
{
    if f.len() == 0 {
        seq![]
    } else {
        doubled_quotes(q, f.drop_last()) + if f.last() == q {
            seq![q, q]
        } else {
            seq![f.last()]
        }
    }
}

/// A field as it is written in quotes.
pub open spec fn quoted(q: u8, f: Seq<u8>) -> Seq<u8> {
    seq![q] + doubled_quotes(q, f) + seq![q]
}

/// The fields of a record as they are written in quotes.
pub open spec fn quoted_fields(c: Config, record: Record) -> Seq<u8>
    decreases record.len(),
{
    if record.len() == 0 {
        seq![]
    } else if record.len() == 1 {
        quoted(c.quote->0, record[0])
    } else {
        quoted_fields(c, record.drop_last()) + seq![c.delimiter] + quoted(
            c.quote->0,
            record.last(),
        )
    }
}

/// Records as they are written in quotes, each with a terminator behind it.
pub open spec fn written(c: Config, records: Seq<Record>) -> Seq<u8>
    decreases records.len(),
{
    if records.len() == 0 {
        seq![]
    } else {
        written(c, records.drop_last()) + quoted_fields(c, records.last()) + seq![
            c.terminator.pair().0,
        ]
    }
}

/// A dialect in which quotes are escaped by doubling them.
spec fn doubles(c: Config) -> bool {
    &&& c.doubled()
    &&& c.quote != Some(c.delimiter)
    &&& !c.terminator.ends(c.delimiter)
    &&& !c.terminator.ends(c.quote->0)
    &&& c.comment != c.quote
    &&& c.terminator.ends(c.terminator.pair().0)
}

/// Every field of `record` is handed out as it is.
pub open spec fn in_shape(c: Config, record: Record) -> bool {
    forall|f: int| 0 <= f < record.len() ==> shaped(c, #[trigger] record[f]) == record[f]
}

/// `w` stands in `inp` at offset `m`.
spec fn stands(inp: Seq<u8>, m: int, w: Seq<u8>) -> bool {
    &&& 0 <= m
    &&& m + w.len() <= inp.len()
    &&& forall|i: int| 0 <= i < w.len() ==> inp[m + i] == #[trigger] w[i]
}

/// A pass over the content of a quoted field.
proof fn read_content(c: Config, inp: Seq<u8>, m: nat, f: Seq<u8>)
    requires
        doubles(c),
        stands(inp, m as int, doubled_quotes(c.quote->0, f)),
        scan(c, beyond(inp), inp, m).halt is None,
        scan(c, beyond(inp), inp, m).state == State::InQuotedField,
    ensures
        ({
            let s = scan(c, beyond(inp), inp, m);
            let t = scan(c, beyond(inp), inp, m + doubled_quotes(c.quote->0, f).len());
            t == Scan { cur: s.cur + f, ..s }
        }),
    decreases f.len(),
{
    let q = c.quote->0;
    let s = scan(c, beyond(inp), inp, m);
    if f.len() == 0 {
        assert(s.cur + f =~= s.cur);
    } else {
        let g = f.drop_last();
        let d = doubled_quotes(q, g);
        let all = doubled_quotes(q, f);
        assert forall|i: int| 0 <= i < d.len() implies inp[m + i] == #[trigger] d[i] by {
            assert(all[i] == d[i]);
        }
        read_content(c, inp, m, g);
        let k = m + d.len();
        let mid = scan(c, beyond(inp), inp, k);
        assert(all[d.len() as int] == f.last());
        assert(inp[k as int] == f.last());
        let one = scan(c, beyond(inp), inp, k + 1);
        assert(one == advance(c, beyond(inp), mid, inp[k as int], k as int));
        assert(s.cur + f =~= (s.cur + g).push(f.last()));
        if f.last() == q {
            assert(all[d.len() as int + 1] == q);
            assert(inp[k as int + 1] == q);
            let two = scan(c, beyond(inp), inp, k + 2);
            assert(two == advance(c, beyond(inp), one, inp[k as int + 1], k as int + 1));
        }
    }
}

/// A pass over a quoted field.
proof fn read_field(c: Config, inp: Seq<u8>, m: nat, f: Seq<u8>)
    requires
        doubles(c),
        stands(inp, m as int, quoted(c.quote->0, f)),
        scan(c, beyond(inp), inp, m).halt is None,
        scan(c, beyond(inp), inp, m).state == State::RecordStart || scan(
            c,
            beyond(inp),
            inp,
            m,
        ).state == State::FieldStart,
    ensures
        ({
            let s = scan(c, beyond(inp), inp, m);
            let t = scan(c, beyond(inp), inp, m + quoted(c.quote->0, f).len());
            &&& t.halt is None
            &&& t.state == State::AfterClosingQuote
            &&& t.cur == f
            &&& t.fields == s.fields
            &&& t.records == s.records
        }),
{
    let q = c.quote->0;
    let w = quoted(q, f);
    let d = doubled_quotes(q, f);
    let s = scan(c, beyond(inp), inp, m);
    scan_bounds(c, beyond(inp), inp, m);
    assert(w[0] == q);
    let one = scan(c, beyond(inp), inp, m + 1);
    assert(one == advance(c, beyond(inp), s, inp[m as int], m as int));
    assert forall|i: int| 0 <= i < d.len() implies inp[m + 1 + i] == #[trigger] d[i] by {
        assert(w[i + 1] == d[i]);
    }
    read_content(c, inp, m + 1, f);
    let k = m + 1 + d.len();
    let mid = scan(c, beyond(inp), inp, k);
    assert(mid.cur =~= f);
    assert(w[d.len() as int + 1] == q);
    assert(inp[k as int] == q);
    assert(scan(c, beyond(inp), inp, k + 1) == advance(
        c,
        beyond(inp),
        mid,
        inp[k as int],
        k as int,
    ));
}

/// A pass over the fields of a record, up to its terminator.
proof fn read_fields(c: Config, inp: Seq<u8>, m: nat, record: Record)
    requires
        doubles(c),
        record.len() > 0,
        in_shape(c, record),
        stands(inp, m as int, quoted_fields(c, record)),
        scan(c, beyond(inp), inp, m).halt is None,
        scan(c, beyond(inp), inp, m).state == State::RecordStart,
    ensures
        ({
            let s = scan(c, beyond(inp), inp, m);
            let t = scan(c, beyond(inp), inp, m + quoted_fields(c, record).len());
            &&& t.halt is None
            &&& t.state == State::AfterClosingQuote
            &&& t.cur == record.last()
            &&& t.fields == record.drop_last()
            &&& t.records == s.records
        }),
    decreases record.len(),
{
    let q = c.quote->0;
    let s = scan(c, beyond(inp), inp, m);
    scan_bounds(c, beyond(inp), inp, m);
    if record.len() == 1 {
        read_field(c, inp, m, record[0]);
        assert(record.drop_last() =~= seq![]);
        assert(s.fields =~= seq![]);
    } else {
        let before = record.drop_last();
        let w = quoted_fields(c, record);
        let v = quoted_fields(c, before);
        let x = quoted(q, record.last());
        assert forall|i: int| 0 <= i < v.len() implies inp[m + i] == #[trigger] v[i] by {
            assert(w[i] == v[i]);
        }
        assert forall|f: int| 0 <= f < before.len() implies shaped(c, #[trigger] before[f])
            == before[f] by {
            assert(before[f] == record[f]);
        }
        assert(shaped(c, record[record.len() - 2]) == record[record.len() - 2]);
        read_fields(c, inp, m, before);
        let k = m + v.len();
        let mid = scan(c, beyond(inp), inp, k);
        assert(w[v.len() as int] == c.delimiter);
        assert(inp[k as int] == c.delimiter);
        let one = scan(c, beyond(inp), inp, k + 1);
        assert(one == advance(c, beyond(inp), mid, inp[k as int], k as int));
        assert(one.fields =~= before);
        assert forall|i: int| 0 <= i < x.len() implies inp[k + 1 + i] == #[trigger] x[i] by {
            assert(w[v.len() + 1 + i] == x[i]);
        }
        read_field(c, inp, k + 1, record.last());
        assert(m + w.len() == k + 1 + x.len());
    }
}

/// A pass over written records.
proof fn read_records(c: Config, inp: Seq<u8>, records: Seq<Record>)
    requires
        doubles(c),
        stands(inp, 0, written(c, records)),
        forall|r: int|
            0 <= r < records.len() ==> (#[trigger] records[r]).len() > 0 && arity_ok(
                c,
                records[r].len(),
            ) && in_shape(c, records[r]),
    ensures
        ({
            let t = scan(c, beyond(inp), inp, written(c, records).len());
            &&& t.halt is None
            &&& t.state == State::RecordStart
            &&& t.records == records
        }),
    decreases records.len(),
{
    if records.len() == 0 {
        assert(scan(c, beyond(inp), inp, 0) == fresh());
        assert(records =~= seq![]);
    } else {
        let before = records.drop_last();
        let w = written(c, records);
        let v = written(c, before);
        let x = quoted_fields(c, records.last());
        assert forall|i: int| 0 <= i < v.len() implies inp[0 + i] == #[trigger] v[i] by {
            assert(w[i] == v[i]);
        }
        assert forall|r: int| 0 <= r < before.len() implies (#[trigger] before[r]).len() > 0
            && arity_ok(c, before[r].len()) && in_shape(c, before[r]) by {
            assert(before[r] == records[r]);
        }
        read_records(c, inp, before);
        let m = v.len();
        assert forall|i: int| 0 <= i < x.len() implies inp[m + i] == #[trigger] x[i] by {
            assert(w[m + i] == x[i]);
        }
        let last = records[records.len() - 1];
        assert(last.len() > 0);
        assert(shaped(c, last[last.len() - 1]) == last[last.len() - 1]);
        read_fields(c, inp, m, records.last());
        let k = m + x.len();
        let mid = scan(c, beyond(inp), inp, k);
        assert(w[k as int] == c.terminator.pair().0);
        assert(inp[k as int] == c.terminator.pair().0);
        let t = scan(c, beyond(inp), inp, k + 1);
        assert(t == advance(c, beyond(inp), mid, inp[k as int], k as int));
        assert(mid.fields.push(mid.cur) =~= records.last());
        assert(before.push(records.last()) =~= records);
    }
}

/// What is written in quotes reads back: whatever bytes the fields hold, a pass over
/// the written records hands out these records and no others. With trimming on, the
/// fields must have nothing to trim.
pub proof fn written_records_read_back(c: Config, records: Seq<Record>)
    requires
        c.distinct(),
        c.doubled(),
        forall|r: int|
            0 <= r < records.len() ==> (#[trigger] records[r]).len() > 0 && arity_ok(
                c,
                records[r].len(),
            ) && in_shape(c, records[r]),
    ensures
        ({
            let inp = written(c, records);
            let m = outcome(c, beyond(inp), inp);
            m.records == records && m.end is Ok
        }),
{
    let inp = written(c, records);
    distinct_bytes(c);
    read_records(c, inp, records);
}

/// The stretches of `inp` between terminators, in order.
pub open spec fn lines(c: Config, inp: Seq<u8>) -> Seq<Seq<u8>>
    decreases inp.len(),
{
    if inp.len() == 0 {
        seq![seq![]]
    } else {
        let before = lines(c, inp.drop_last());
        if c.terminator.ends(inp.last()) {
            before.push(seq![])
        } else {
            before.drop_last().push(before.last().push(inp.last()))
        }
    }
}

/// The stretches of `line` between delimiters, in order.
pub open spec fn split(c: Config, line: Seq<u8>) -> Seq<Seq<u8>>
    decreases line.len(),
{
    if line.len() == 0 {
        seq![seq![]]
    } else {
        let before = split(c, line.drop_last());
        if line.last() == c.delimiter {
            before.push(seq![])
        } else {
            before.drop_last().push(before.last().push(line.last()))
        }
    }
}

/// The lines that are not blank, each cut at its delimiters.
pub open spec fn rows(c: Config, lines: Seq<Seq<u8>>) -> Seq<Record>
    decreases lines.len(),
{
    if lines.len() == 0 {
        seq![]
    } else {
        let before = rows(c, lines.drop_last());
        if lines.last().len() == 0 {
            before
        } else {
            before.push(split(c, lines.last()).map_values(|f: Seq<u8>| shaped(c, f)))
        }
    }
}

/// There is always a last stretch.
proof fn some_line(c: Config, inp: Seq<u8>)
    ensures
        lines(c, inp).len() > 0,
        split(c, inp).len() > 0,
    decreases inp.len(),
{
    if inp.len() > 0 {
        some_line(c, inp.drop_last());
    }
}

/// How far a pass without quotes has come.
proof fn scan_splits(c: Config, inp: Seq<u8>, n: nat)
    requires
        c.quote is None,
        c.comment is None,
        c.field_count is None,
        !c.terminator.ends(c.delimiter),
        n <= inp.len(),
    ensures
        ({
            let s = scan(c, beyond(inp), inp, n);
            let all = lines(c, inp.take(n as int));
            let open = all.last();
            let cut = split(c, open);
            &&& s.halt is None
            &&& s.records == rows(c, all.drop_last())
            &&& open.len() == 0 ==> s.state == State::RecordStart && s.fields.len() == 0
                && s.cur.len() == 0
            &&& open.len() > 0 ==> {
                &&& s.state == State::FieldStart || s.state == State::InField
                &&& s.fields == cut.drop_last().map_values(|f: Seq<u8>| shaped(c, f))
                &&& s.cur == cut.last()
            }
        }),
    decreases n,
{
    let now = inp.take(n as int);
    some_line(c, now);
    if n == 0 {
        assert(scan(c, beyond(inp), inp, 0) == fresh());
        assert(lines(c, now).drop_last() =~= seq![]);
    } else {
        let m = (n - 1) as nat;
        let b = inp[n - 1];
        scan_splits(c, inp, m);
        let before = inp.take(m as int);
        assert(now.drop_last() =~= before);
        assert(now.last() == b);
        some_line(c, before);
        let all = lines(c, before);
        let open = all.last();
        some_line(c, open);
        let cut = split(c, open);
        let s = scan(c, beyond(inp), inp, m);
        let t = scan(c, beyond(inp), inp, n);
        assert(t == advance(c, beyond(inp), s, b, n - 1));
        let shape = |f: Seq<u8>| shaped(c, f);
        if c.terminator.ends(b) {
            assert(lines(c, now) == all.push(seq![]));
            assert(lines(c, now).drop_last() =~= all);
            assert(lines(c, now).last().len() == 0);
            if open.len() > 0 {
                assert(s.fields.push(shaped(c, s.cur)) =~= cut.map_values(shape));
            }
        } else {
            let longer = open.push(b);
            assert(lines(c, now) == all.drop_last().push(longer));
            assert(lines(c, now).drop_last() =~= all.drop_last());
            assert(lines(c, now).last() == longer);
            assert(longer.drop_last() =~= open);
            let next = split(c, longer);
            if open.len() == 0 {
                assert(cut == seq![Seq::<u8>::empty()]);
                assert(s.fields =~= cut.drop_last().map_values(shape));
                assert(s.cur =~= cut.last());
            }
            if b == c.delimiter {
                assert(next == cut.push(seq![]));
                assert(next.drop_last() =~= cut);
                assert(t.fields =~= cut.map_values(shape));
            } else {
                assert(next == cut.drop_last().push(cut.last().push(b)));
                assert(next.drop_last() =~= cut.drop_last());
            }
        }
    }
}

/// With quoting off every delimiter and every terminator counts: an input is read as
/// its lines, without the blank ones, cut at their delimiters. That the last line has
/// no terminator makes no difference.
pub proof fn without_quotes_lines_are_split(c: Config, inp: Seq<u8>)
    requires
        c.quote is None,
        c.comment is None,
        c.field_count is None,
        !c.terminator.ends(c.delimiter),
    ensures
        outcome(c, beyond(inp), inp).records == rows(c, lines(c, inp)),
        outcome(c, beyond(inp), inp).end is Ok,
{
    scan_splits(c, inp, inp.len());
    some_line(c, inp);
    assert(inp.take(inp.len() as int) =~= inp);
    let all = lines(c, inp);
    let cut = split(c, all.last());
    some_line(c, all.last());
    let s = scan(c, beyond(inp), inp, inp.len());
    if all.last().len() > 0 {
        assert(s.fields.push(shaped(c, s.cur)) =~= cut.map_values(|f: Seq<u8>| shaped(c, f)));
    }
}

/// The parsers agree. Of one pass, two parsers that both succeed hand out the same
/// records and stop at the same place, whether they report failures exactly or as
/// soon as they come across one; and of an input without failures neither reports
/// one.
pub proof fn parsers_agree<S, O: Output + ?Sized, A: Accumulator<S, O>>(
    c: Config,
    p: Pass,
    one: (crate::Result<Option<usize>>, Fold<S, O, A>, bool),
    other: (crate::Result<Option<usize>>, Fold<S, O, A>, bool),
    steady: bool,
)
    requires
        run_returns(one.0, c, p, one.1, steady, one.2),
        run_returns(other.0, c, p, other.1, steady, other.2),
    ensures
        one.0 is Ok && other.0 is Ok ==> one.0 == other.0 && one.1.log() == other.1.log(),
        outcome(c, beyond(p.inp), p.inp).end is Ok ==> (one.0 matches Err(e) ==> {
            ||| turned_down(one.1, p.meaning(c).records, e)
            ||| not_text::<O>(p, e)
            ||| !steady && e is IO
        }),
{
    bounded_scan(c, p.boundary, p.inp, p.inp.len());
    scan_bounds(c, p.boundary, p.inp, p.inp.len());
}

} // verus!
