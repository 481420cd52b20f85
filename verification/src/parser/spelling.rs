//! How records are spelled, and that what is spelled is what is read.
//!
//! Here a dialect is looked at from the writer's side: which bytes spell a field, a
//! record, a comment, a blank line. The laws say of every input that is put together
//! from such pieces which records a pass over it hands out, and of every input that is
//! cut short or goes wrong where it does so. They speak of the bytes of the dialect, and
//! of nothing that a parser is made of.

use vstd::prelude::*;

use super::dfa::table::{cell, packed, packed_says, Cell, State};
use super::driver::{needs, slack, starts, Pass};
use super::grammar::{
    beyond, fresh, header_search, open_record, open_since, outcome, placed, scan, scan_bounds,
    scan_halted, scan_running, search, search_stopped, shaped, stretch, trim_end, trim_start,
    turns_down, widest_within, Failure, Found, Halt, Probe, Record,
};
use super::laws::search_is_scan;
use crate::config::{
    distinct_means_told_apart, ends_record, terminators_are_their_bytes, Config, QuoteHandling,
};

verus! {

/// The bytes that end a record: the one that was chosen, or both line feed and carriage
/// return.
pub open spec fn line_end(c: Config, b: u8) -> bool {
    ends_record(c.terminator, b)
}

/// The bytes with a meaning of their own can be told apart.
pub open spec fn apart(c: Config) -> bool {
    &&& !line_end(c, c.delimiter)
    &&& c.quote matches Some(q) ==> q != c.delimiter && !line_end(c, q)
    &&& c.comment matches Some(k) ==> k != c.delimiter && !line_end(c, k) && c.quote != Some(k)
}

/// The six bytes that trimming takes off: tab, line feed, vertical tab, form feed,
/// carriage return and space.
pub open spec fn blank(b: u8) -> bool {
    b == 0x09 || b == 0x0A || b == 0x0B || b == 0x0C || b == 0x0D || b == 0x20
}

/// All bytes are among the six that trimming takes off.
pub open spec fn all_blank(s: Seq<u8>) -> bool {
    forall|i: int| 0 <= i < s.len() ==> blank(#[trigger] s[i])
}

/// `t` is `s` without the blanks around it.
pub open spec fn stripped(s: Seq<u8>, t: Seq<u8>) -> bool {
    &&& t.len() > 0 ==> !blank(t[0]) && !blank(t.last())
    &&& exists|p: Seq<u8>, q: Seq<u8>| all_blank(p) && all_blank(q) && s == #[trigger] (p + t + q)
}

/// A field that holds the bytes `s` is handed out as `t`: as it is, or stripped where
/// trimming is asked for.
pub open spec fn handed_out(c: Config, s: Seq<u8>, t: Seq<u8>) -> bool {
    if c.trim {
        stripped(s, t)
    } else {
        t == s
    }
}

/// What trimming takes off in front is blank, and nothing blank is left.
proof fn strips_front(s: Seq<u8>)
    ensures
        trim_start(s).len() <= s.len(),
        trim_start(s) == s.skip(s.len() - trim_start(s).len()),
        all_blank(s.take(s.len() - trim_start(s).len())),
        trim_start(s).len() > 0 ==> !blank(trim_start(s)[0]),
    decreases s.len(),
{
    if s.len() > 0 && blank(s[0]) {
        let r = s.skip(1);
        strips_front(r);
        let n = s.len() - trim_start(s).len();
        assert(trim_start(s) == trim_start(r));
        assert(r.skip(r.len() - trim_start(r).len()) =~= s.skip(n));
        assert forall|i: int| 0 <= i < n implies blank(#[trigger] s.take(n)[i]) by {
            if i > 0 {
                assert(r.take(n - 1)[i - 1] == s.take(n)[i]);
            }
        }
    } else {
        assert(s.skip(0) =~= s);
    }
}

/// What trimming takes off behind is blank, and nothing blank is left.
proof fn strips_back(s: Seq<u8>)
    ensures
        trim_end(s).len() <= s.len(),
        trim_end(s) == s.take(trim_end(s).len() as int),
        all_blank(s.skip(trim_end(s).len() as int)),
        trim_end(s).len() > 0 ==> !blank(trim_end(s).last()),
    decreases s.len(),
{
    if s.len() > 0 && blank(s.last()) {
        let r = s.drop_last();
        strips_back(r);
        let n = trim_end(s).len() as int;
        assert(trim_end(s) == trim_end(r));
        assert(r.take(n) =~= s.take(n));
        assert forall|i: int| 0 <= i < s.len() - n implies blank(#[trigger] s.skip(n)[i]) by {
            if i < r.len() - n {
                assert(r.skip(n)[i] == s.skip(n)[i]);
            }
        }
    } else {
        assert(s.take(s.len() as int) =~= s);
    }
}

/// Trimming takes off blanks and nothing else: what is handed out is the field without
/// the tabs, line feeds, vertical tabs, form feeds, carriage returns and spaces that it
/// starts and ends with; and without trimming it is the field.
pub proof fn trimming_takes_off_blanks_only(c: Config, s: Seq<u8>)
    ensures
        handed_out(c, s, shaped(c, s)),
        s.len() == 0 || (!blank(s[0]) && !blank(s.last())) ==> shaped(c, s) == s,
{
    if c.trim {
        let a = trim_start(s);
        let t = trim_end(a);
        strips_front(s);
        strips_back(a);
        let p = s.take(s.len() - a.len());
        let q = a.skip(t.len() as int);
        assert(s =~= p + t + q);
        if t.len() > 0 {
            assert(t[0] == a[0]);
        }
        if s.len() == 0 || (!blank(s[0]) && !blank(s.last())) {
            if p.len() > 0 {
                assert(p[0] == s[0]);
            }
            if q.len() > 0 {
                assert(q.last() == s.last());
            }
            assert(s =~= t);
        }
    }
}

/// There is only one way to strip.
pub proof fn stripping_is_unique(s: Seq<u8>, t: Seq<u8>, u: Seq<u8>)
    requires
        stripped(s, t),
        stripped(s, u),
    ensures
        t == u,
{
    let (p, q) = choose|p: Seq<u8>, q: Seq<u8>|
        all_blank(p) && all_blank(q) && s == #[trigger] (p + t + q);
    let (v, w) = choose|v: Seq<u8>, w: Seq<u8>|
        all_blank(v) && all_blank(w) && s == #[trigger] (v + u + w);
    assert(s.len() == p.len() + t.len() + q.len());
    assert(s.len() == v.len() + u.len() + w.len());
    assert forall|i: int| 0 <= i < s.len() && !blank(#[trigger] s[i]) implies p.len() <= i < p.len()
        + t.len() && v.len() <= i < v.len() + u.len() by {
        if i < p.len() {
            assert(p[i] == s[i]);
        }
        if i >= p.len() + t.len() {
            assert(q[i - p.len() - t.len()] == s[i]);
        }
        if i < v.len() {
            assert(v[i] == s[i]);
        }
        if i >= v.len() + u.len() {
            assert(w[i - v.len() - u.len()] == s[i]);
        }
    }
    if t.len() > 0 {
        assert(s[p.len() as int] == t[0]);
        assert(s[p.len() + t.len() - 1] == t.last());
    }
    if u.len() > 0 {
        assert(s[v.len() as int] == u[0]);
        assert(s[v.len() + u.len() - 1] == u.last());
    }
    assert(t =~= u) by {
        if t.len() > 0 {
            assert(!blank(s[p.len() as int]));
            assert(!blank(s[p.len() + t.len() - 1]));
        }
        if u.len() > 0 {
            assert(!blank(s[v.len() as int]));
            assert(!blank(s[v.len() + u.len() - 1]));
        }
        assert forall|i: int| 0 <= i < t.len() implies t[i] == u[i] by {
            assert(s[p.len() + i] == t[i]);
            assert(s[v.len() + i] == u[i]);
        }
    }
}

/// A stretch of a field, in quotes or not, the bytes it holds, and which of them are
/// spelled with the escape byte in front, if it is in quotes.
pub struct Part {
    pub quoted: bool,
    pub bytes: Seq<u8>,
    pub marked: Seq<bool>,
}

/// Bytes as they are spelled inside quotes: those that are marked have the escape byte in
/// front. Where quotes are escaped by quotes, that doubles a quote.
pub open spec fn escaped(c: Config, s: Seq<u8>, marked: Seq<bool>) -> Seq<u8>
    decreases s.len(),
{
    if s.len() == 0 {
        seq![]
    } else {
        escaped(c, s.drop_last(), marked.drop_last()) + if marked.last() {
            seq![c.escape->0, s.last()]
        } else {
            seq![s.last()]
        }
    }
}

/// The byte can stand inside quotes, marked or not. A quote has to be marked, and so has the
/// escape byte. Any other byte may be, unless quotes are escaped by doubling them; and
/// nothing can be without an escape byte.
pub open spec fn mark_fits(c: Config, b: u8, marked: bool) -> bool {
    if marked {
        c.escape is Some && (c.escape == c.quote ==> c.quote == Some(b))
    } else {
        c.quote != Some(b) && c.escape != Some(b)
    }
}

/// The bytes can stand inside quotes with these marks.
pub open spec fn marks_fit(c: Config, s: Seq<u8>, marked: Seq<bool>) -> bool {
    &&& marked.len() == s.len()
    &&& forall|i: int| 0 <= i < s.len() ==> mark_fits(c, #[trigger] s[i], marked[i])
}

/// A stretch of a field as it is spelled.
pub open spec fn part_text(c: Config, p: Part) -> Seq<u8> {
    if p.quoted {
        seq![c.quote->0] + escaped(c, p.bytes, p.marked) + seq![c.quote->0]
    } else {
        p.bytes
    }
}

/// A field as it is spelled.
pub open spec fn field_text(c: Config, parts: Seq<Part>) -> Seq<u8>
    decreases parts.len(),
{
    if parts.len() == 0 {
        seq![]
    } else {
        field_text(c, parts.drop_last()) + part_text(c, parts.last())
    }
}

/// What a field holds: the bytes of its stretches, one after the other.
pub open spec fn field_bytes(parts: Seq<Part>) -> Seq<u8>
    decreases parts.len(),
{
    if parts.len() == 0 {
        seq![]
    } else {
        field_bytes(parts.drop_last()) + parts.last().bytes
    }
}

/// The stretch `p` can follow the stretches `before` of its field.
///
/// Outside quotes stands neither a delimiter nor a line end. A quote stands there only
/// where it is taken literally: `Literal` takes it so anywhere but at the start of
/// a field. Only `Toggle` lets quotes open behind other content, and only `Strict` lets
/// nothing follow a closing quote. Where quotes are escaped by doubling them, no two
/// quoted stretches touch.
pub open spec fn part_fits(c: Config, before: Seq<Part>, p: Part) -> bool {
    let behind_quote = before.len() > 0 && before.last().quoted;
    if p.quoted {
        &&& c.quote is Some
        &&& marks_fit(c, p.bytes, p.marked)
        &&& before.len() > 0 ==> c.quote_handling == QuoteHandling::Toggle
        &&& behind_quote ==> c.escape != c.quote
    } else {
        &&& p.bytes.len() > 0
        &&& before.len() > 0 ==> behind_quote && c.quote_handling != QuoteHandling::Strict
        &&& forall|i: int|
            0 <= i < p.bytes.len() ==> {
                let b = #[trigger] p.bytes[i];
                &&& b != c.delimiter
                &&& !line_end(c, b)
                &&& c.quote == Some(b) ==> c.quote_handling == QuoteHandling::Literal && (i > 0 || (
                behind_quote && c.escape != c.quote))
            }
    }
}

/// The stretches can make up a field.
pub open spec fn field_fits(c: Config, parts: Seq<Part>) -> bool {
    forall|k: int|
        0 <= k < parts.len() ==> part_fits(c, parts.take(k), #[trigger] parts[k])
}

/// A record as it is spelled: its fields, with delimiters between them.
pub open spec fn record_text(c: Config, fields: Seq<Seq<Part>>) -> Seq<u8>
    decreases fields.len(),
{
    if fields.len() == 0 {
        seq![]
    } else if fields.len() == 1 {
        field_text(c, fields[0])
    } else {
        record_text(c, fields.drop_last()) + seq![c.delimiter] + field_text(c, fields.last())
    }
}

/// The fields can make up a line: they can be told from a blank line and from a comment.
pub open spec fn line_fits(c: Config, fields: Seq<Seq<Part>>) -> bool {
    &&& fields.len() > 0
    &&& forall|k: int| 0 <= k < fields.len() ==> field_fits(c, #[trigger] fields[k])
    &&& fields.len() == 1 ==> fields[0].len() > 0
    &&& fields[0].len() > 0 && !fields[0][0].quoted ==> c.comment != Some(fields[0][0].bytes[0])
}

/// A record of `n` fields is one that is asked for.
pub open spec fn number_fits(c: Config, n: nat) -> bool {
    c.field_count is None || n == c.field_count->0
}

/// `record` is what the fields hold, as it is handed out.
pub open spec fn reads_as(c: Config, fields: Seq<Seq<Part>>, record: Record) -> bool {
    &&& record.len() == fields.len()
    &&& forall|k: int|
        0 <= k < fields.len() ==> handed_out(
            c,
            field_bytes(#[trigger] fields[k]),
            record[k],
        )
}

/// A line of an input, and the byte that ends it.
pub enum Line {
    /// Nothing.
    Blank(u8),
    /// What stands between the comment byte and the end of the line.
    Comment(Seq<u8>, u8),
    /// A record.
    Fields(Seq<Seq<Part>>, u8),
}

/// A line as it is spelled.
pub open spec fn line_text(c: Config, line: Line) -> Seq<u8> {
    match line {
        Line::Blank(end) => seq![end],
        Line::Comment(body, end) => seq![c.comment->0] + body + seq![end],
        Line::Fields(fields, end) => record_text(c, fields) + seq![end],
    }
}

/// The byte ends a comment: the end of the line, and a line feed in any case.
pub open spec fn comment_end(c: Config, b: u8) -> bool {
    line_end(c, b) || b == 0x0A
}

/// A comment as it may stand in an input.
pub open spec fn comment_fits(c: Config, body: Seq<u8>) -> bool {
    c.comment is Some && forall|i: int|
        0 <= i < body.len() ==> !comment_end(c, #[trigger] body[i])
}

/// A line as it may stand in an input.
pub open spec fn fits(c: Config, line: Line) -> bool {
    match line {
        Line::Blank(end) => line_end(c, end),
        Line::Comment(body, end) => comment_fits(c, body) && comment_end(c, end),
        Line::Fields(fields, end) => line_fits(c, fields) && number_fits(c, fields.len())
            && line_end(c, end),
    }
}

/// All lines as they are spelled.
pub open spec fn text(c: Config, lines: Seq<Line>) -> Seq<u8>
    decreases lines.len(),
{
    if lines.len() == 0 {
        seq![]
    } else {
        text(c, lines.drop_last()) + line_text(c, lines.last())
    }
}

/// The records among the lines, in order.
pub open spec fn records_of(lines: Seq<Line>) -> Seq<Seq<Seq<Part>>>
    decreases lines.len(),
{
    if lines.len() == 0 {
        seq![]
    } else {
        match lines.last() {
            Line::Fields(fields, _) => records_of(lines.drop_last()).push(fields),
            _ => records_of(lines.drop_last()),
        }
    }
}

/// All lines are as they may stand in an input.
pub open spec fn all_fit(c: Config, lines: Seq<Line>) -> bool {
    forall|k: int| 0 <= k < lines.len() ==> fits(c, #[trigger] lines[k])
}

/// `records` are what the spelled ones hold, as they are handed out.
pub open spec fn all_read_as(c: Config, spelled: Seq<Seq<Seq<Part>>>, records: Seq<Record>) -> bool {
    &&& records.len() == spelled.len()
    &&& forall|k: int| 0 <= k < spelled.len() ==> reads_as(c, #[trigger] spelled[k], records[k])
}

/// `w` stands in `inp` at offset `m`.
spec fn stands(inp: Seq<u8>, m: int, w: Seq<u8>) -> bool {
    &&& 0 <= m
    &&& m + w.len() <= inp.len()
    &&& forall|i: int| 0 <= i < w.len() ==> inp[m + i] == #[trigger] w[i]
}

/// Where two pieces stand together, each stands.
proof fn stands_apart(inp: Seq<u8>, m: int, a: Seq<u8>, b: Seq<u8>)
    requires
        stands(inp, m, a + b),
    ensures
        stands(inp, m, a),
        stands(inp, m + a.len(), b),
{
    assert forall|i: int| 0 <= i < a.len() implies inp[m + i] == #[trigger] a[i] by {
        assert((a + b)[i] == a[i]);
    }
    assert forall|i: int| 0 <= i < b.len() implies inp[m + a.len() + i] == #[trigger] b[i] by {
        assert((a + b)[a.len() + i] == b[i]);
    }
}

/// A pass has come to offset `m` and is in the middle of a record, or where one starts.
spec fn is_at(
    c: Config,
    inp: Seq<u8>,
    m: int,
    state: State,
    record_at: int,
    field_at: int,
    fields: Record,
    cur: Seq<u8>,
    records: Seq<Record>,
) -> bool {
    let s = scan(c, beyond(inp), inp, m as nat);
    &&& 0 <= m <= inp.len()
    &&& s.halt is None
    &&& s.state == state
    &&& s.fields == fields
    &&& s.cur == cur
    &&& s.records == records
    &&& state == State::RecordStart ==> record_at == m && field_at == m && fields.len() == 0
        && cur.len() == 0
    &&& state != State::RecordStart ==> s.record_at == record_at && s.field_at == field_at
}

/// A pass over content outside quotes.
proof fn read_plain(
    c: Config,
    inp: Seq<u8>,
    m: int,
    before: Seq<Part>,
    p: Part,
    n: int,
    state: State,
    record_at: int,
    field_at: int,
    fields: Record,
    cur: Seq<u8>,
    records: Seq<Record>,
)
    requires
        apart(c),
        part_fits(c, before, p),
        !p.quoted,
        0 < n <= p.bytes.len(),
        stands(inp, m, p.bytes),
        is_at(c, inp, m, state, record_at, field_at, fields, cur, records),
        state == if before.len() > 0 {
            State::AfterClosingQuote
        } else {
            state
        },
        before.len() == 0 ==> state == State::RecordStart || state == State::FieldStart,
        state == State::RecordStart ==> c.comment != Some(p.bytes[0]),
    ensures
        is_at(
            c,
            inp,
            m + n,
            State::InField,
            record_at,
            field_at,
            fields,
            cur + p.bytes.take(n),
            records,
        ),
    decreases n,
{
    let b = p.bytes[n - 1];
    assert(inp[m + (n - 1)] == b);
    assert(b != c.delimiter);
    if n > 1 {
        read_plain(
            c,
            inp,
            m,
            before,
            p,
            n - 1,
            state,
            record_at,
            field_at,
            fields,
            cur,
            records,
        );
        assert((cur + p.bytes.take(n - 1)).push(b) =~= cur + p.bytes.take(n));
    } else {
        assert(cur.push(b) =~= cur + p.bytes.take(n));
    }
}

/// A pass over content inside quotes.
proof fn read_escaped(
    c: Config,
    inp: Seq<u8>,
    m: int,
    s: Seq<u8>,
    marked: Seq<bool>,
    record_at: int,
    field_at: int,
    fields: Record,
    cur: Seq<u8>,
    records: Seq<Record>,
)
    requires
        apart(c),
        c.quote is Some,
        marks_fit(c, s, marked),
        stands(inp, m, escaped(c, s, marked)),
        is_at(c, inp, m, State::InQuotedField, record_at, field_at, fields, cur, records),
    ensures
        is_at(
            c,
            inp,
            m + escaped(c, s, marked).len(),
            State::InQuotedField,
            record_at,
            field_at,
            fields,
            cur + s,
            records,
        ),
    decreases s.len(),
{
    if s.len() == 0 {
        assert(cur + s =~= cur);
    } else {
        let r = s.drop_last();
        let before = marked.drop_last();
        let b = s.last();
        let w = escaped(c, r, before);
        let tail = if marked.last() {
            seq![c.escape->0, b]
        } else {
            seq![b]
        };
        stands_apart(inp, m, w, tail);
        assert forall|i: int| 0 <= i < r.len() implies mark_fits(c, #[trigger] r[i], before[i]) by {
            assert(mark_fits(c, s[i], marked[i]));
        }
        read_escaped(c, inp, m, r, before, record_at, field_at, fields, cur, records);
        assert(mark_fits(c, s[s.len() - 1], marked[s.len() - 1]));
        let k = m + w.len();
        assert(inp[k + 0] == tail[0]);
        assert((cur + r).push(b) =~= cur + s);
        if tail.len() == 2 {
            assert(inp[k + 1] == tail[1]);
            let one = scan(c, beyond(inp), inp, (k + 1) as nat);
            assert(one.halt is None);
            assert(scan(c, beyond(inp), inp, (k + 2) as nat).halt is None);
        }
    }
}

/// A pass over a stretch of a field.
proof fn read_part(
    c: Config,
    inp: Seq<u8>,
    m: int,
    before: Seq<Part>,
    p: Part,
    state: State,
    record_at: int,
    field_at: int,
    fields: Record,
    cur: Seq<u8>,
    records: Seq<Record>,
)
    requires
        apart(c),
        part_fits(c, before, p),
        stands(inp, m, part_text(c, p)),
        is_at(c, inp, m, state, record_at, field_at, fields, cur, records),
        before.len() == 0 ==> state == State::RecordStart || state == State::FieldStart,
        before.len() > 0 ==> state == if before.last().quoted {
            State::AfterClosingQuote
        } else {
            State::InField
        },
        state == State::RecordStart && !p.quoted ==> c.comment != Some(p.bytes[0]),
    ensures
        is_at(
            c,
            inp,
            m + part_text(c, p).len(),
            if p.quoted {
                State::AfterClosingQuote
            } else {
                State::InField
            },
            record_at,
            field_at,
            fields,
            cur + p.bytes,
            records,
        ),
{
    if p.quoted {
        let q = c.quote->0;
        let w = escaped(c, p.bytes, p.marked);
        stands_apart(inp, m, seq![q] + w, seq![q]);
        stands_apart(inp, m, seq![q], w);
        assert(inp[m + 0] == seq![q][0]);
        assert(is_at(
            c,
            inp,
            m + 1,
            State::InQuotedField,
            record_at,
            field_at,
            fields,
            cur,
            records,
        ));
        read_escaped(c, inp, m + 1, p.bytes, p.marked, record_at, field_at, fields, cur, records);
        assert(inp[m + 1 + w.len() + 0] == seq![q][0]);
    } else {
        read_plain(
            c,
            inp,
            m,
            before,
            p,
            p.bytes.len() as int,
            state,
            record_at,
            field_at,
            fields,
            cur,
            records,
        );
        assert(p.bytes.take(p.bytes.len() as int) =~= p.bytes);
    }
}

/// The state behind the stretches of a field.
spec fn state_behind(parts: Seq<Part>, start: State) -> State {
    if parts.len() == 0 {
        start
    } else if parts.last().quoted {
        State::AfterClosingQuote
    } else {
        State::InField
    }
}

/// A pass over a field.
proof fn read_field(
    c: Config,
    inp: Seq<u8>,
    m: int,
    parts: Seq<Part>,
    state: State,
    record_at: int,
    field_at: int,
    fields: Record,
    records: Seq<Record>,
)
    requires
        apart(c),
        field_fits(c, parts),
        stands(inp, m, field_text(c, parts)),
        state == State::RecordStart || state == State::FieldStart,
        is_at(c, inp, m, state, record_at, field_at, fields, seq![], records),
        state == State::RecordStart && parts.len() > 0 && !parts[0].quoted ==> c.comment != Some(
            parts[0].bytes[0],
        ),
    ensures
        is_at(
            c,
            inp,
            m + field_text(c, parts).len(),
            state_behind(parts, state),
            record_at,
            field_at,
            fields,
            field_bytes(parts),
            records,
        ),
    decreases parts.len(),
{
    if parts.len() > 0 {
        let before = parts.drop_last();
        let p = parts.last();
        stands_apart(inp, m, field_text(c, before), part_text(c, p));
        assert forall|k: int| 0 <= k < before.len() implies part_fits(
            c,
            before.take(k),
            #[trigger] before[k],
        ) by {
            assert(before.take(k) =~= parts.take(k));
            assert(part_fits(c, parts.take(k), parts[k]));
        }
        read_field(c, inp, m, before, state, record_at, field_at, fields, records);
        assert(parts.take(parts.len() - 1) =~= before);
        assert(part_fits(c, parts.take(parts.len() - 1), parts[parts.len() - 1]));
        let mid = state_behind(before, state);
        read_part(
            c,
            inp,
            m + field_text(c, before).len(),
            before,
            p,
            mid,
            record_at,
            field_at,
            fields,
            field_bytes(before),
            records,
        );
    }
}

/// The fields that the stretches hold, as a pass hands them out.
spec fn shapes(c: Config, fields: Seq<Seq<Part>>) -> Record {
    fields.map_values(|parts: Seq<Part>| shaped(c, field_bytes(parts)))
}

/// Where the last field of a record starts that starts at `m`.
pub open spec fn last_field_at(c: Config, m: int, fields: Seq<Seq<Part>>) -> int {
    if fields.len() <= 1 {
        m
    } else {
        m + record_text(c, fields.drop_last()).len() + 1
    }
}

/// The state behind the fields of a record.
spec fn state_of(fields: Seq<Seq<Part>>) -> State {
    state_behind(
        fields.last(),
        if fields.len() == 1 {
            State::RecordStart
        } else {
            State::FieldStart
        },
    )
}

/// The fields can stand at the start of a line, complete or not.
pub open spec fn begins(c: Config, fields: Seq<Seq<Part>>) -> bool {
    &&& fields.len() > 0
    &&& forall|k: int| 0 <= k < fields.len() ==> field_fits(c, #[trigger] fields[k])
    &&& fields[0].len() > 0 && !fields[0][0].quoted ==> c.comment != Some(fields[0][0].bytes[0])
}

/// A pass over the fields of a record, up to its end.
proof fn read_fields(
    c: Config,
    inp: Seq<u8>,
    m: int,
    fields: Seq<Seq<Part>>,
    records: Seq<Record>,
)
    requires
        apart(c),
        begins(c, fields),
        stands(inp, m, record_text(c, fields)),
        is_at(c, inp, m, State::RecordStart, m, m, seq![], seq![], records),
    ensures
        ({
            let end = m + record_text(c, fields).len();
            let state = state_of(fields);
            is_at(
                c,
                inp,
                end,
                state,
                m,
                last_field_at(c, m, fields),
                shapes(c, fields.drop_last()),
                field_bytes(fields.last()),
                records,
            ) && (state == State::RecordStart <==> end == m)
        }),
    decreases fields.len(),
{
    let last = fields.last();
    assert(field_fits(c, fields[fields.len() - 1]));
    if fields.len() == 1 {
        assert(shapes(c, fields.drop_last()) =~= seq![]);
        read_field(c, inp, m, last, State::RecordStart, m, m, seq![], records);
        text_is_some(c, last);
    } else {
        let before = fields.drop_last();
        let w = record_text(c, before);
        stands_apart(inp, m, w + seq![c.delimiter], field_text(c, last));
        stands_apart(inp, m, w, seq![c.delimiter]);
        assert forall|k: int| 0 <= k < before.len() implies field_fits(c, #[trigger] before[k]) by {
            assert(field_fits(c, fields[k]));
        }
        read_fields(c, inp, m, before, records);
        let k = m + w.len();
        assert(inp[k + 0] == seq![c.delimiter][0]);
        let some = shapes(c, before.drop_last());
        let all = shapes(c, before);
        assert(all =~= some.push(shaped(c, field_bytes(before.last()))));
        assert(is_at(
            c,
            inp,
            k + 1,
            State::FieldStart,
            m,
            k + 1,
            all,
            seq![],
            records,
        ));
        read_field(c, inp, k + 1, last, State::FieldStart, m, k + 1, all, records);
    }
}

/// A field with stretches is spelled by some byte.
proof fn text_is_some(c: Config, parts: Seq<Part>)
    requires
        field_fits(c, parts),
    ensures
        parts.len() > 0 <==> field_text(c, parts).len() > 0,
{
    if parts.len() > 0 {
        let n = parts.len() - 1;
        assert(part_fits(c, parts.take(n), parts[n]));
        assert(part_text(c, parts.last()).len() > 0);
    }
}

/// What a pass hands out for spelled fields is what they hold.
proof fn shapes_read(c: Config, fields: Seq<Seq<Part>>)
    ensures
        reads_as(c, fields, shapes(c, fields)),
{
    assert forall|k: int| 0 <= k < fields.len() implies handed_out(
        c,
        field_bytes(#[trigger] fields[k]),
        shapes(c, fields)[k],
    ) by {
        trimming_takes_off_blanks_only(c, field_bytes(fields[k]));
    }
}

/// A pass over a comment, up to its end.
proof fn read_comment(c: Config, inp: Seq<u8>, m: int, body: Seq<u8>, n: int, records: Seq<Record>)
    requires
        apart(c),
        comment_fits(c, body),
        0 <= n <= body.len(),
        stands(inp, m, seq![c.comment->0] + body),
        is_at(c, inp, m, State::RecordStart, m, m, seq![], seq![], records),
    ensures
        is_at(
            c,
            inp,
            m + 1 + n,
            State::InComment,
            scan(c, beyond(inp), inp, (m + 1 + n) as nat).record_at,
            scan(c, beyond(inp), inp, (m + 1 + n) as nat).field_at,
            seq![],
            seq![],
            records,
        ),
    decreases n,
{
    let w = seq![c.comment->0] + body;
    assert(inp[m + n] == w[n]);
    if n > 0 {
        read_comment(c, inp, m, body, n - 1, records);
        assert(!comment_end(c, body[n - 1]));
    }
}

/// A pass over a line.
proof fn read_line(c: Config, inp: Seq<u8>, m: int, line: Line, records: Seq<Record>) -> (record:
    Option<Record>)
    requires
        apart(c),
        fits(c, line),
        stands(inp, m, line_text(c, line)),
        is_at(c, inp, m, State::RecordStart, m, m, seq![], seq![], records),
    ensures
        ({
            let end = m + line_text(c, line).len();
            is_at(
                c,
                inp,
                end,
                State::RecordStart,
                end,
                end,
                seq![],
                seq![],
                match record {
                    Some(r) => records.push(r),
                    None => records,
                },
            )
        }),
        match line {
            Line::Fields(fields, _) => record matches Some(r) && reads_as(c, fields, r),
            _ => record is None,
        },
{
    match line {
        Line::Blank(end) => {
            assert(inp[m + 0] == line_text(c, line)[0]);
            None
        },
        Line::Comment(body, end) => {
            let w = seq![c.comment->0] + body;
            stands_apart(inp, m, w, seq![end]);
            read_comment(c, inp, m, body, body.len() as int, records);
            assert(inp[m + w.len() + 0] == seq![end][0]);
            None
        },
        Line::Fields(fields, end) => {
            let w = record_text(c, fields);
            stands_apart(inp, m, w, seq![end]);
            read_fields(c, inp, m, fields, records);
            if fields.len() == 1 {
                text_is_some(c, fields[0]);
            } else {
                assert(w.len() > 0);
            }
            let k = m + w.len();
            assert(inp[k + 0] == seq![end][0]);
            let r = shapes(c, fields);
            shapes_read(c, fields);
            assert(r =~= shapes(c, fields.drop_last()).push(
                shaped(c, field_bytes(fields.last())),
            ));
            let t = scan(c, beyond(inp), inp, (k + 1) as nat);
            assert(t.fields =~= seq![]);
            assert(t.cur =~= seq![]);
            Some(r)
        },
    }
}

/// A pass over lines.
proof fn read_lines(c: Config, inp: Seq<u8>, lines: Seq<Line>) -> (records: Seq<Record>)
    requires
        apart(c),
        all_fit(c, lines),
        stands(inp, 0, text(c, lines)),
    ensures
        ({
            let end = text(c, lines).len() as int;
            is_at(c, inp, end, State::RecordStart, end, end, seq![], seq![], records)
        }),
        all_read_as(c, records_of(lines), records),
    decreases lines.len(),
{
    if lines.len() == 0 {
        assert(scan(c, beyond(inp), inp, 0) == fresh());
        seq![]
    } else {
        let before = lines.drop_last();
        let last = lines.last();
        let w = text(c, before);
        stands_apart(inp, 0, w, line_text(c, last));
        assert forall|k: int| 0 <= k < before.len() implies fits(c, #[trigger] before[k]) by {
            assert(fits(c, lines[k]));
        }
        assert(fits(c, lines[lines.len() - 1]));
        let some = read_lines(c, inp, before);
        let one = read_line(c, inp, w.len() as int, last, some);
        let all = match one {
            Some(r) => some.push(r),
            None => some,
        };
        let spelled = records_of(lines);
        assert forall|k: int| 0 <= k < spelled.len() implies reads_as(
            c,
            #[trigger] spelled[k],
            all[k],
        ) by {
            if k < records_of(before).len() {
                assert(reads_as(c, records_of(before)[k], some[k]));
            }
        }
        all
    }
}

/// What is spelled is what is read. An input put together from records, comments and
/// blank lines, in any order and with any of the line ends, is read as these records and
/// no others, each field as the bytes it holds.
pub proof fn what_is_spelled_is_read(c: Config, lines: Seq<Line>)
    requires
        apart(c),
        all_fit(c, lines),
    ensures
        ({
            let m = outcome(c, beyond(text(c, lines)), text(c, lines));
            m.end is Ok && all_read_as(c, records_of(lines), m.records)
        }),
{
    let inp = text(c, lines);
    let records = read_lines(c, inp, lines);
}

/// The last line needs no end: with the last record spelled without one, an input is
/// read as the same records.
pub proof fn the_last_line_needs_no_end(c: Config, lines: Seq<Line>, fields: Seq<Seq<Part>>)
    requires
        apart(c),
        all_fit(c, lines),
        line_fits(c, fields),
        number_fits(c, fields.len()),
    ensures
        ({
            let inp = text(c, lines) + record_text(c, fields);
            let m = outcome(c, beyond(inp), inp);
            m.end is Ok && all_read_as(c, records_of(lines).push(fields), m.records)
        }),
{
    let w = text(c, lines);
    let inp = w + record_text(c, fields);
    let (records, r) = read_up_to(c, lines, fields, seq![]);
    let all = records.push(r);
    let spelled = records_of(lines).push(fields);
    assert(inp + seq![] =~= inp);
    assert forall|k: int| 0 <= k < spelled.len() implies reads_as(
        c,
        #[trigger] spelled[k],
        all[k],
    ) by {
        if k < records_of(lines).len() {
            assert(reads_as(c, records_of(lines)[k], records[k]));
        }
    }
}

/// A pass over lines and the fields behind them, whatever follows.
proof fn read_up_to(c: Config, lines: Seq<Line>, fields: Seq<Seq<Part>>, rest: Seq<u8>) -> (read: (
    Seq<Record>,
    Record,
))
    requires
        apart(c),
        all_fit(c, lines),
        begins(c, fields),
    ensures
        ({
            let inp = text(c, lines) + record_text(c, fields) + rest;
            let m = text(c, lines).len() as int;
            let end = m + record_text(c, fields).len();
            is_at(
                c,
                inp,
                end,
                state_of(fields),
                m,
                last_field_at(c, m, fields),
                read.1.drop_last(),
                field_bytes(fields.last()),
                read.0,
            ) && (state_of(fields) == State::RecordStart <==> end == m)
        }),
        read.1 == shapes(c, fields),
        reads_as(c, fields, read.1),
        all_read_as(c, records_of(lines), read.0),
{
    let w = text(c, lines);
    let v = record_text(c, fields);
    let inp = w + v + rest;
    let records = read_lines(c, inp, lines);
    assert(stands(inp, w.len() as int, v));
    read_fields(c, inp, w.len() as int, fields, records);
    shapes_read(c, fields);
    assert(shapes(c, fields).drop_last() =~= shapes(c, fields.drop_last()));
    if fields.len() == 1 {
        text_is_some(c, fields[0]);
    }
    (records, shapes(c, fields))
}

/// A comment that the input ends in adds nothing.
pub proof fn the_last_comment_needs_no_end(c: Config, lines: Seq<Line>, body: Seq<u8>)
    requires
        apart(c),
        all_fit(c, lines),
        comment_fits(c, body),
    ensures
        ({
            let inp = text(c, lines) + (seq![c.comment->0] + body);
            let m = outcome(c, beyond(inp), inp);
            m.end is Ok && all_read_as(c, records_of(lines), m.records)
        }),
{
    let w = text(c, lines);
    let inp = w + (seq![c.comment->0] + body);
    assert(stands(inp, 0, w));
    let records = read_lines(c, inp, lines);
    assert(stands(inp, w.len() as int, seq![c.comment->0] + body));
    read_comment(c, inp, w.len() as int, body, body.len() as int, records);
}

/// What is read before a pass fails, and what it fails with.
pub open spec fn fails_behind(c: Config, lines: Seq<Line>, inp: Seq<u8>, f: Failure) -> bool {
    let m = outcome(c, beyond(inp), inp);
    m.end == Err::<Option<int>, Failure>(f) && all_read_as(c, records_of(lines), m.records)
}

/// A strict dialect lets no quote stand inside an unquoted field: the records before it
/// are read, and the failure is at the quote.
pub proof fn a_quote_in_a_plain_field_fails(
    c: Config,
    lines: Seq<Line>,
    fields: Seq<Seq<Part>>,
    rest: Seq<u8>,
)
    requires
        apart(c),
        c.quote_handling == QuoteHandling::Strict,
        c.quote is Some,
        all_fit(c, lines),
        begins(c, fields),
        fields.last().len() > 0,
        !fields.last().last().quoted,
    ensures
        ({
            let before = text(c, lines) + record_text(c, fields);
            fails_behind(
                c,
                lines,
                before + (seq![c.quote->0] + rest),
                Failure::Quote { at: before.len() as int },
            )
        }),
{
    let before = text(c, lines) + record_text(c, fields);
    let tail = seq![c.quote->0] + rest;
    let inp = before + tail;
    let read = read_up_to(c, lines, fields, tail);
    let m = before.len();
    assert(inp[m as int] == tail[0]);
    assert(scan(c, beyond(inp), inp, m + 1).halt is Some);
    scan_halted(c, beyond(inp), inp, m + 1, inp.len());
}

/// A strict dialect lets nothing but a delimiter or a line end follow a closing quote:
/// the failure is at the closing quote.
pub proof fn content_behind_a_closing_quote_fails(
    c: Config,
    lines: Seq<Line>,
    fields: Seq<Seq<Part>>,
    b: u8,
    rest: Seq<u8>,
)
    requires
        apart(c),
        c.quote_handling == QuoteHandling::Strict,
        all_fit(c, lines),
        begins(c, fields),
        fields.last().len() > 0,
        fields.last().last().quoted,
        b != c.delimiter,
        !line_end(c, b),
        c.quote == Some(b) ==> c.escape != c.quote,
    ensures
        ({
            let before = text(c, lines) + record_text(c, fields);
            fails_behind(
                c,
                lines,
                before + (seq![b] + rest),
                Failure::Quote { at: before.len() - 1 },
            )
        }),
{
    let before = text(c, lines) + record_text(c, fields);
    let tail = seq![b] + rest;
    let inp = before + tail;
    let read = read_up_to(c, lines, fields, tail);
    let m = before.len();
    assert(inp[m as int] == tail[0]);
    assert(scan(c, beyond(inp), inp, m + 1).halt is Some);
    scan_halted(c, beyond(inp), inp, m + 1, inp.len());
}

/// A quote that the input does not close fails at the start of its field. The failure
/// names the start of the record as well, and how many of its fields have begun.
pub proof fn an_unclosed_quote_fails(
    c: Config,
    lines: Seq<Line>,
    fields: Seq<Seq<Part>>,
    p: Part,
    dangling: bool,
)
    requires
        apart(c),
        all_fit(c, lines),
        begins(c, fields),
        p.quoted,
        part_fits(c, fields.last(), p),
        dangling ==> c.escape is Some && c.escape != c.quote,
    ensures
        ({
            let start = text(c, lines).len() as int;
            let inp = text(c, lines) + record_text(c, fields) + (seq![c.quote->0] + escaped(
                c,
                p.bytes,
                p.marked,
            ) + if dangling {
                seq![c.escape->0]
            } else {
                seq![]
            });
            fails_behind(
                c,
                lines,
                inp,
                Failure::Unclosed {
                    at: last_field_at(c, start, fields),
                    record: start,
                    fields: fields.len(),
                },
            )
        }),
{
    let q = c.quote->0;
    let start = text(c, lines).len() as int;
    let before = text(c, lines) + record_text(c, fields);
    let w = escaped(c, p.bytes, p.marked);
    let end = if dangling {
        seq![c.escape->0]
    } else {
        seq![]
    };
    let tail = seq![q] + w + end;
    let inp = before + tail;
    let read = read_up_to(c, lines, fields, tail);
    let m = before.len() as int;
    assert(stands(inp, m, tail));
    stands_apart(inp, m, seq![q] + w, end);
    stands_apart(inp, m, seq![q], w);
    assert(inp[m + 0] == seq![q][0]);
    let some = shapes(c, fields).drop_last();
    let cur = field_bytes(fields.last());
    let at = last_field_at(c, start, fields);
    assert(is_at(c, inp, m + 1, State::InQuotedField, start, at, some, cur, read.0));
    read_escaped(c, inp, m + 1, p.bytes, p.marked, start, at, some, cur, read.0);
    if dangling {
        assert(inp[m + 1 + w.len() + 0] == end[0]);
    }
}

/// A record with another number of fields than asked for fails at the start of the
/// record, and says how many there are, whether the line is ended or the input is.
pub proof fn a_wrong_number_of_fields_fails(
    c: Config,
    lines: Seq<Line>,
    fields: Seq<Seq<Part>>,
    rest: Seq<u8>,
)
    requires
        apart(c),
        all_fit(c, lines),
        line_fits(c, fields),
        !number_fits(c, fields.len()),
        rest.len() > 0 ==> line_end(c, rest[0]),
    ensures
        fails_behind(
            c,
            lines,
            text(c, lines) + record_text(c, fields) + rest,
            Failure::Arity {
                expected: c.field_count->0,
                found: fields.len(),
                at: text(c, lines).len() as int,
            },
        ),
{
    let before = text(c, lines) + record_text(c, fields);
    let inp = before + rest;
    let read = read_up_to(c, lines, fields, rest);
    let m = before.len();
    assert(record_text(c, fields).len() > 0) by {
        if fields.len() == 1 {
            text_is_some(c, fields[0]);
        }
    }
    if rest.len() > 0 {
        assert(inp[m as int] == rest[0]);
        assert(scan(c, beyond(inp), inp, m + 1).halt is Some);
        scan_halted(c, beyond(inp), inp, m + 1, inp.len());
    }
}

/// The stretches of `inp` between line ends, in order; there is always a last one.
pub open spec fn lines_of(c: Config, inp: Seq<u8>) -> Seq<Seq<u8>>
    decreases inp.len(),
{
    if inp.len() == 0 {
        seq![seq![]]
    } else {
        let before = lines_of(c, inp.drop_last());
        if line_end(c, inp.last()) {
            before.push(seq![])
        } else {
            before.drop_last().push(before.last().push(inp.last()))
        }
    }
}

/// The stretches of `line` between delimiters, in order; there is always a last one.
pub open spec fn cells_of(c: Config, line: Seq<u8>) -> Seq<Seq<u8>>
    decreases line.len(),
{
    if line.len() == 0 {
        seq![seq![]]
    } else {
        let before = cells_of(c, line.drop_last());
        if line.last() == c.delimiter {
            before.push(seq![])
        } else {
            before.drop_last().push(before.last().push(line.last()))
        }
    }
}

/// The line is a record: it is not blank, and it does not start with the comment byte.
pub open spec fn is_record(c: Config, line: Seq<u8>) -> bool {
    line.len() > 0 && c.comment != Some(line[0])
}

/// The lines that are records, in order.
pub open spec fn kept(c: Config, lines: Seq<Seq<u8>>) -> Seq<Seq<u8>>
    decreases lines.len(),
{
    if lines.len() == 0 {
        seq![]
    } else if is_record(c, lines.last()) {
        kept(c, lines.drop_last()).push(lines.last())
    } else {
        kept(c, lines.drop_last())
    }
}

/// `records` are the lines, cut at their delimiters.
pub open spec fn cut_as(c: Config, lines: Seq<Seq<u8>>, records: Seq<Record>) -> bool {
    &&& records.len() == lines.len()
    &&& forall|k: int|
        0 <= k < lines.len() ==> (#[trigger] records[k]).len() == cells_of(c, lines[k]).len()
    &&& forall|k: int, f: int|
        0 <= k < lines.len() && 0 <= f < cells_of(c, lines[k]).len() ==> handed_out(
            c,
            cells_of(c, lines[k])[f],
            #[trigger] records[k][f],
        )
}

/// The input has no quote byte; and where there can be comments, no line feed that does
/// not end a line.
pub open spec fn is_plain(c: Config, inp: Seq<u8>) -> bool {
    &&& forall|i: int| 0 <= i < inp.len() ==> c.quote != Some(#[trigger] inp[i])
    &&& c.comment is Some ==> forall|i: int|
        0 <= i < inp.len() && #[trigger] inp[i] == 0x0A ==> line_end(c, 0x0A)
}

/// Every line that is a record has the number of fields that is asked for.
pub open spec fn numbers_fit(c: Config, lines: Seq<Seq<u8>>) -> bool {
    forall|k: int|
        0 <= k < lines.len() && is_record(c, #[trigger] lines[k]) ==> number_fits(
            c,
            cells_of(c, lines[k]).len(),
        )
}

/// There is always a last stretch.
proof fn some_stretch(c: Config, inp: Seq<u8>)
    ensures
        lines_of(c, inp).len() > 0,
        cells_of(c, inp).len() > 0,
    decreases inp.len(),
{
    if inp.len() > 0 {
        some_stretch(c, inp.drop_last());
    }
}

/// The lines that are records, as a pass hands them out.
spec fn cut_rows(c: Config, lines: Seq<Seq<u8>>) -> Seq<Record>
    decreases lines.len(),
{
    if lines.len() == 0 {
        seq![]
    } else if is_record(c, lines.last()) {
        cut_rows(c, lines.drop_last()).push(
            cells_of(c, lines.last()).map_values(|f: Seq<u8>| shaped(c, f)),
        )
    } else {
        cut_rows(c, lines.drop_last())
    }
}

/// The rows are the lines that are records, cut at their delimiters.
proof fn rows_are_cut(c: Config, lines: Seq<Seq<u8>>)
    ensures
        cut_as(c, kept(c, lines), cut_rows(c, lines)),
    decreases lines.len(),
{
    if lines.len() > 0 {
        let before = lines.drop_last();
        rows_are_cut(c, before);
        let some = kept(c, before);
        let all = kept(c, lines);
        let rows = cut_rows(c, lines);
        assert forall|k: int| 0 <= k < all.len() implies (#[trigger] rows[k]).len() == cells_of(
            c,
            all[k],
        ).len() by {
            if k < some.len() {
                assert(rows[k] == cut_rows(c, before)[k]);
                assert(all[k] == some[k]);
            }
        }
        assert forall|k: int, f: int|
            0 <= k < all.len() && 0 <= f < cells_of(c, all[k]).len() implies handed_out(
            c,
            cells_of(c, all[k])[f],
            #[trigger] rows[k][f],
        ) by {
            if k < some.len() {
                assert(rows[k][f] == cut_rows(c, before)[k][f]);
                assert(all[k] == some[k]);
            } else {
                trimming_takes_off_blanks_only(c, cells_of(c, all[k])[f]);
            }
        }
    }
}

/// How far a pass has come over an input without quotes.
proof fn scan_cuts(c: Config, inp: Seq<u8>, n: nat)
    requires
        apart(c),
        is_plain(c, inp),
        n <= inp.len(),
        numbers_fit(c, lines_of(c, inp.take(n as int)).drop_last()),
    ensures
        ({
            let s = scan(c, beyond(inp), inp, n);
            let all = lines_of(c, inp.take(n as int));
            let open = all.last();
            let cut = cells_of(c, open);
            &&& s.halt is None
            &&& s.records == cut_rows(c, all.drop_last())
            &&& open.len() == 0 ==> s.state == State::RecordStart && s.fields.len() == 0
                && s.cur.len() == 0
            &&& open.len() > 0 && !is_record(c, open) ==> s.state == State::InComment
                && s.fields.len() == 0 && s.cur.len() == 0
            &&& is_record(c, open) ==> {
                &&& s.state == State::FieldStart || s.state == State::InField
                &&& s.fields == cut.drop_last().map_values(|f: Seq<u8>| shaped(c, f))
                &&& s.cur == cut.last()
            }
        }),
    decreases n,
{
    let now = inp.take(n as int);
    some_stretch(c, now);
    if n == 0 {
        assert(scan(c, beyond(inp), inp, 0) == fresh());
        assert(lines_of(c, now).drop_last() =~= seq![]);
    } else {
        let m = (n - 1) as nat;
        let b = inp[n - 1];
        let before = inp.take(m as int);
        assert(now.drop_last() =~= before);
        assert(now.last() == b);
        some_stretch(c, before);
        let all = lines_of(c, before);
        let open = all.last();
        some_stretch(c, open);
        let cut = cells_of(c, open);
        let shape = |f: Seq<u8>| shaped(c, f);
        if line_end(c, b) {
            assert(lines_of(c, now) == all.push(seq![]));
            assert(lines_of(c, now).drop_last() =~= all);
            assert forall|k: int|
                0 <= k < all.drop_last().len() && is_record(
                    c,
                    #[trigger] all.drop_last()[k],
                ) implies number_fits(c, cells_of(c, all.drop_last()[k]).len()) by {
                assert(all[k] == all.drop_last()[k]);
            }
            scan_cuts(c, inp, m);
            assert(is_record(c, all[all.len() - 1]) ==> number_fits(c, cut.len()));
            let s = scan(c, beyond(inp), inp, m);
            if is_record(c, open) {
                assert(s.fields.push(shaped(c, s.cur)) =~= cut.map_values(shape));
            }
        } else {
            let longer = open.push(b);
            assert(lines_of(c, now) == all.drop_last().push(longer));
            assert(lines_of(c, now).drop_last() =~= all.drop_last());
            scan_cuts(c, inp, m);
            let s = scan(c, beyond(inp), inp, m);
            let t = scan(c, beyond(inp), inp, n);
            assert(longer.drop_last() =~= open);
            let next = cells_of(c, longer);
            if open.len() == 0 {
                assert(cut == seq![Seq::<u8>::empty()]);
                assert(s.fields =~= cut.drop_last().map_values(shape));
                assert(s.cur =~= cut.last());
                assert(longer[0] == b);
            } else {
                assert(longer[0] == open[0]);
            }
            if is_record(c, longer) {
                if b == c.delimiter {
                    assert(next == cut.push(seq![]));
                    assert(next.drop_last() =~= cut);
                    assert(t.fields =~= cut.map_values(shape));
                } else {
                    assert(next == cut.drop_last().push(cut.last().push(b)));
                    assert(next.drop_last() =~= cut.drop_last());
                }
            }
        }
    }
}

/// An input without quotes is its lines, cut at the delimiters: every line that is not
/// blank and does not start with the comment byte is one record, and every field is
/// handed out byte for byte, whatever the bytes are; no other line is a record. It makes
/// no difference whether the dialect has a quote byte, how it handles quotes, whether the
/// number of fields is fixed, and whether the last line is ended.
pub proof fn plain_lines_are_cut(c: Config, inp: Seq<u8>)
    requires
        apart(c),
        is_plain(c, inp),
        numbers_fit(c, lines_of(c, inp)),
    ensures
        outcome(c, beyond(inp), inp).end is Ok,
        cut_as(c, kept(c, lines_of(c, inp)), outcome(c, beyond(inp), inp).records),
{
    let all = lines_of(c, inp);
    some_stretch(c, inp);
    assert(inp.take(inp.len() as int) =~= inp);
    assert forall|k: int|
        0 <= k < all.drop_last().len() && is_record(c, #[trigger] all.drop_last()[k]) implies number_fits(
        c,
        cells_of(c, all.drop_last()[k]).len(),
    ) by {
        assert(all[k] == all.drop_last()[k]);
    }
    scan_cuts(c, inp, inp.len());
    let open = all.last();
    let cut = cells_of(c, open);
    some_stretch(c, open);
    let s = scan(c, beyond(inp), inp, inp.len());
    if is_record(c, open) {
        assert(number_fits(c, cells_of(c, all[all.len() - 1]).len()));
        assert(s.fields.push(shaped(c, s.cur)) =~= cut.map_values(|f: Seq<u8>| shaped(c, f)));
    }
    rows_are_cut(c, all);
}

/// In a dialect that is accepted the bytes with a meaning can be told apart.
pub proof fn accepted_bytes_are_apart(c: Config)
    requires
        c.distinct(),
    ensures
        apart(c),
{
    distinct_means_told_apart(c);
    terminators_are_their_bytes(c.terminator, c.delimiter);
}

/// The same dialect with strict quotes.
pub open spec fn with_strict_quotes(c: Config) -> Config {
    Config { quote_handling: QuoteHandling::Strict, ..c }
}

/// How quotes are handled matters only where one is misplaced. Where a strict dialect goes
/// on, every other does the same; and where it fails, an other goes on and flags the byte,
/// which it does nowhere else.
pub proof fn handling_matters_for_misplaced_quotes_only(c: Config, s: State, b: u8)
    ensures
        ({
            let here = cell(c, s, b);
            let strict = cell(with_strict_quotes(c), s, b);
            &&& strict.next != State::Error ==> here.next == strict.next && here.output
                == strict.output && !here.strict
            &&& strict.next == State::Error && here.next != State::Error ==> here.strict
            &&& here.strict ==> strict.next == State::Error && here.next != State::Error
        }),
{
}

/// A strict dialect fails on a quote inside an unquoted field, and on what is neither a
/// delimiter nor a line end behind a closing quote, unless it is a quote that doubles it.
/// Nothing else fails.
pub proof fn what_a_strict_dialect_turns_down(c: Config, s: State, b: u8)
    requires
        apart(c),
        c.quote_handling == QuoteHandling::Strict,
        s != State::FieldEnd,
        s != State::RecordEnd,
        s != State::Error,
    ensures
        cell(c, s, b).next == State::Error <==> {
            ||| s == State::InField && c.quote == Some(b)
            ||| s == State::AfterClosingQuote && b != c.delimiter && !line_end(c, b) && !(c.quote
                == Some(b) && c.escape == c.quote)
        },
{
    terminators_are_their_bytes(c.terminator, b);
}

/// States are numbered apart: those between two bytes first, those that act on a byte
/// behind them.
pub proof fn states_are_numbered_apart(s: State, t: State)
    ensures
        State::numbered(s.number()) == s,
        s.number() == t.number() ==> s == t,
        s.number() < 7 <==> s != State::FieldEnd && s != State::RecordEnd && s != State::Error,
        s.number() <= 9,
{
}

/// The words of two cells are the same just if the cells are.
pub proof fn cells_are_packed_apart(a: Cell, b: Cell)
    ensures
        packed(a) == packed(b) <==> a == b,
{
    packed_says(a);
    packed_says(b);
}

/// A search that turns down misplaced quotes finds what one that does not finds, unless it
/// stops before on a byte that a strict dialect would not let stand.
pub proof fn probing_only_turns_down(c: Config, probe: Probe, from: State, inp: Seq<u8>, n: nat)
    ensures
        ({
            let probed = search(c, probe, from, inp, n);
            let plain = search(c, Probe::Off, from, inp, n);
            &&& probed.stop is None ==> plain == probed
            &&& probed.stop matches Some(Found::Start(i)) ==> plain.stop == Some(Found::Start(i))
            &&& probed.stop matches Some(Found::Rejected(i)) ==> 0 <= i < n && search(
                c,
                Probe::Off,
                from,
                inp,
                i as nat,
            ).stop is None && cell(
                with_strict_quotes(c),
                search(c, Probe::Off, from, inp, i as nat).state,
                inp[i],
            ).next == State::Error
        }),
    decreases n,
{
    if n > 0 {
        probing_only_turns_down(c, probe, from, inp, (n - 1) as nat);
        let s = search(c, Probe::Off, from, inp, (n - 1) as nat);
        handling_matters_for_misplaced_quotes_only(c, s.state, inp[n - 1]);
        if cell(c, s.state, inp[n - 1]).next == State::Error {
            handling_matters_for_misplaced_quotes_only(c, s.state, inp[n - 1]);
        }
    }
}

/// A misplaced quote is turned down: what a strict dialect would not let stand stops a
/// search that looks for it, but for one that takes a quote behind a closing quote for a
/// pair.
pub proof fn probing_turns_misplaced_quotes_down(
    c: Config,
    probe: Probe,
    from: State,
    inp: Seq<u8>,
    n: nat,
)
    requires
        probe != Probe::Off,
        n < inp.len(),
        search(c, probe, from, inp, n).stop is None,
    ensures
        ({
            let s = search(c, probe, from, inp, n).state;
            let b = inp[n as int];
            let pair = probe == Probe::Paired && s == State::AfterClosingQuote && c.quote == Some(b);
            cell(with_strict_quotes(c), s, b).next == State::Error && !pair ==> search(
                c,
                probe,
                from,
                inp,
                n + 1,
            ).stop == Some(Found::Rejected(n as int))
        }),
{
    let s = search(c, probe, from, inp, n);
    handling_matters_for_misplaced_quotes_only(c, s.state, inp[n as int]);
}

/// On an input without quotes a record is no wider than its line and the byte that ends it.
proof fn open_in_line(c: Config, inp: Seq<u8>, n: nat)
    requires
        apart(c),
        is_plain(c, inp),
        n <= inp.len(),
        numbers_fit(c, lines_of(c, inp.take(n as int)).drop_last()),
    ensures
        ({
            let all = lines_of(c, inp.take(n as int));
            let open = all.last();
            open_since(c, false, inp, n) matches Some(i) ==> {
                ||| open.len() > 0 && n - i == open.len()
                ||| open.len() == 0 && all.len() >= 2 && n - i == all[all.len() - 2].len() + 1
            }
        }),
    decreases n,
{
    if n > 0 {
        let m = (n - 1) as nat;
        let b = inp[n - 1];
        let now = inp.take(n as int);
        let before = inp.take(m as int);
        assert(now.drop_last() =~= before);
        some_stretch(c, before);
        let all = lines_of(c, before);
        let open = all.last();
        if line_end(c, b) {
            assert(lines_of(c, now).drop_last() =~= all);
            assert forall|k: int|
                0 <= k < all.drop_last().len() && is_record(
                    c,
                    #[trigger] all.drop_last()[k],
                ) implies number_fits(c, cells_of(c, all.drop_last()[k]).len()) by {
                assert(all[k] == all.drop_last()[k]);
            }
        } else {
            assert(lines_of(c, now).drop_last() =~= all.drop_last());
        }
        open_in_line(c, inp, m);
        scan_cuts(c, inp, m);
    }
}

/// The first lines of an input are the first lines of what it is the start of.
proof fn lines_of_start(c: Config, inp: Seq<u8>, n: nat)
    requires
        n <= inp.len(),
    ensures
        ({
            let some = lines_of(c, inp.take(n as int));
            let all = lines_of(c, inp);
            &&& some.len() <= all.len()
            &&& forall|k: int| 0 <= k < some.len() - 1 ==> #[trigger] some[k] == all[k]
            &&& some.last().len() <= all[some.len() - 1].len()
        }),
    decreases inp.len() - n,
{
    some_stretch(c, inp.take(n as int));
    if n == inp.len() {
        assert(inp.take(n as int) =~= inp);
    } else {
        let more = inp.take((n + 1) as int);
        lines_of_start(c, inp, n + 1);
        assert(more.drop_last() =~= inp.take(n as int));
        let some = lines_of(c, inp.take(n as int));
        let next = lines_of(c, more);
        assert forall|k: int| 0 <= k < some.len() - 1 implies #[trigger] some[k] == lines_of(
            c,
            inp,
        )[k] by {
            assert(next[k] == some[k]);
        }
        if line_end(c, inp[n as int]) {
            assert(next[some.len() - 1] == some.last());
        }
    }
}

/// A pass over an input without quotes needs room for its longest line, for the byte that
/// ends it and for four more.
pub proof fn a_line_at_a_time_is_held(c: Config, inp: Seq<u8>, base: int, boundary: int, longest: int)
    requires
        apart(c),
        is_plain(c, inp),
        numbers_fit(c, lines_of(c, inp)),
        0 <= longest,
        forall|k: int|
            0 <= k < lines_of(c, inp).len() ==> (#[trigger] lines_of(c, inp)[k]).len() <= longest,
    ensures
        needs(c, Pass { inp, base, boundary }, true) <= longest + 5,
{
    let all = lines_of(c, inp);
    assert forall|n: nat| n <= inp.len() implies #[trigger] stretch(c, false, inp, n) <= longest
        + 1 by {
        let some = lines_of(c, inp.take(n as int));
        some_stretch(c, inp.take(n as int));
        lines_of_start(c, inp, n);
        assert forall|k: int|
            0 <= k < some.drop_last().len() && is_record(
                c,
                #[trigger] some.drop_last()[k],
            ) implies number_fits(c, cells_of(c, some.drop_last()[k]).len()) by {
            assert(some[k] == all[k]);
        }
        open_in_line(c, inp, n);
        if some.len() >= 2 {
            assert(some[some.len() - 2] == all[some.len() - 2]);
        }
        assert(all[some.len() - 1].len() <= longest);
    }
    widest_within(c, false, inp, inp.len(), longest + 1);
}

/// A field spelled in quotes, with the escape byte before every quote and every escape
/// byte.
pub open spec fn in_quotes(c: Config, f: Seq<u8>) -> Seq<Part> {
    seq![
        Part {
            quoted: true,
            bytes: f,
            marked: f.map_values(|b: u8| c.quote == Some(b) || c.escape == Some(b)),
        },
    ]
}

/// Records spelled in quotes, one to a line.
pub open spec fn all_in_quotes(c: Config, records: Seq<Record>, end: u8) -> Seq<Line> {
    records.map_values(
        |r: Record| Line::Fields(r.map_values(|f: Seq<u8>| in_quotes(c, f)), end),
    )
}

/// What is written in quotes reads back, whatever bytes the fields hold: with the escape
/// byte put before every quote and every escape byte of a field, be it the quote itself or
/// another byte, the records that are read are those that were written.
pub proof fn records_in_quotes_read_back(c: Config, records: Seq<Record>, end: u8)
    requires
        apart(c),
        !c.trim,
        c.quote is Some,
        c.escape is Some,
        line_end(c, end),
        forall|k: int|
            0 <= k < records.len() ==> (#[trigger] records[k]).len() > 0 && number_fits(
                c,
                records[k].len(),
            ),
    ensures
        ({
            let inp = text(c, all_in_quotes(c, records, end));
            let m = outcome(c, beyond(inp), inp);
            m.records == records && m.end is Ok
        }),
{
    let lines = all_in_quotes(c, records, end);
    assert forall|k: int| 0 <= k < lines.len() implies fits(c, #[trigger] lines[k]) by {
        let r = records[k];
        let fields = r.map_values(|f: Seq<u8>| in_quotes(c, f));
        assert(lines[k] == Line::Fields(fields, end));
        assert forall|f: int| 0 <= f < fields.len() implies field_fits(c, #[trigger] fields[f]) by {
            quoted_field_fits(c, r[f]);
        }
        assert(fields[0] == in_quotes(c, r[0]));
    }
    what_is_spelled_is_read(c, lines);
    let inp = text(c, lines);
    let read = outcome(c, beyond(inp), inp).records;
    spelled_in_order(c, records, end);
    assert forall|k: int| 0 <= k < records.len() implies #[trigger] read[k] == records[k] by {
        let fields = records[k].map_values(|f: Seq<u8>| in_quotes(c, f));
        assert(records_of(lines)[k] == fields);
        assert(reads_as(c, records_of(lines)[k], read[k]));
        assert forall|f: int| 0 <= f < records[k].len() implies read[k][f] == records[k][f] by {
            assert(handed_out(c, field_bytes(fields[f]), read[k][f]));
            quoted_field_fits(c, records[k][f]);
            assert(fields[f] == in_quotes(c, records[k][f]));
        }
        assert(read[k] =~= records[k]);
    }
    assert(read =~= records);
}

/// A field in quotes can stand, and holds its bytes.
proof fn quoted_field_fits(c: Config, f: Seq<u8>)
    requires
        c.quote is Some,
        c.escape is Some,
    ensures
        field_fits(c, in_quotes(c, f)),
        field_bytes(in_quotes(c, f)) == f,
{
    let parts = in_quotes(c, f);
    assert(parts.take(0) =~= seq![]);
    assert(part_fits(c, parts.take(0), parts[0]));
    assert(parts.drop_last() =~= seq![]);
    assert(field_bytes(parts.drop_last()) =~= seq![]);
    assert(field_bytes(parts) =~= f);
}

/// Records spelled one to a line are spelled in order.
proof fn spelled_in_order(c: Config, records: Seq<Record>, end: u8)
    ensures
        records_of(all_in_quotes(c, records, end)) == records.map_values(
            |r: Record| r.map_values(|f: Seq<u8>| in_quotes(c, f)),
        ),
    decreases records.len(),
{
    let lines = all_in_quotes(c, records, end);
    let all = records.map_values(|r: Record| r.map_values(|f: Seq<u8>| in_quotes(c, f)));
    if records.len() > 0 {
        spelled_in_order(c, records.drop_last(), end);
        assert(lines.drop_last() =~= all_in_quotes(c, records.drop_last(), end));
        assert(all.drop_last() =~= records.drop_last().map_values(
            |r: Record| r.map_values(|f: Seq<u8>| in_quotes(c, f)),
        ));
        assert(records_of(lines) =~= all);
    } else {
        assert(records_of(lines) =~= all);
    }
}

/// A pass that has completed no record is where a search for the end of the header is.
proof fn scan_is_search(c: Config, inp: Seq<u8>, n: nat)
    requires
        n <= inp.len(),
        scan(c, beyond(inp), inp, n).halt is None,
        scan(c, beyond(inp), inp, n).records.len() == 0,
    ensures
        ({
            let q = search(c, Probe::Off, State::RecordStart, inp, n);
            q.stop is None && q.state == scan(c, beyond(inp), inp, n).state
        }),
    decreases n,
{
    if n > 0 {
        scan_running(c, beyond(inp), inp, (n - 1) as nat, n);
        scan_is_search(c, inp, (n - 1) as nat);
        scan_bounds(c, beyond(inp), inp, (n - 1) as nat);
    }
}

/// A header ends where it is spelled to end, whatever it holds and however many fields it
/// has: with blank lines and comments before it or not, the search for its end stops on
/// the byte that ends its line.
pub proof fn a_header_ends_with_its_line(
    c: Config,
    lines: Seq<Line>,
    header: Seq<Seq<Part>>,
    end: u8,
    rest: Seq<u8>,
)
    requires
        apart(c),
        all_fit(c, lines),
        records_of(lines).len() == 0,
        line_fits(c, header),
        line_end(c, end),
    ensures
        ({
            let before = text(c, lines) + record_text(c, header);
            let inp = before + (seq![end] + rest);
            header_search(c, inp, inp.len()) == Some(Found::Start(before.len() as int))
        }),
{
    let before = text(c, lines) + record_text(c, header);
    let tail = seq![end] + rest;
    let inp = before + tail;
    let read = read_up_to(c, lines, header, tail);
    let m = before.len();
    assert(record_text(c, header).len() > 0) by {
        if header.len() == 1 {
            text_is_some(c, header[0]);
        }
    }
    scan_is_search(c, inp, m);
    assert(inp[m as int] == tail[0]);
    let q = search(c, Probe::Off, State::RecordStart, inp, m + 1);
    assert(q.stop == Some(Found::Start(m as int)));
    search_stopped(c, Probe::Off, State::RecordStart, inp, m + 1, inp.len());
}

/// What is wrong with a header is what a pass that does not know of headers fails with.
pub proof fn a_header_fails_as_a_record_does(c: Config, inp: Seq<u8>, i: int)
    requires
        header_search(c, inp, inp.len()) == Some(Found::Rejected(i)),
    ensures
        outcome(c, beyond(inp), inp).end == Err::<Option<int>, Failure>(Failure::Quote { at: i }),
        outcome(c, beyond(inp), inp).records.len() == 0,
{
    rejected_where(c, inp, inp.len());
}

/// What a search for the end of the header turns down, a pass fails on in the same state.
proof fn rejected_where(c: Config, inp: Seq<u8>, n: nat)
    requires
        n <= inp.len(),
        search(c, Probe::Off, State::RecordStart, inp, n).stop matches Some(Found::Rejected(_)),
    ensures
        header_search(c, inp, n) matches Some(Found::Rejected(i)) && scan(
            c,
            beyond(inp),
            inp,
            n,
        ).halt == Some(Halt::Failed(Failure::Quote { at: i })),
        scan(c, beyond(inp), inp, n).records.len() == 0,
    decreases n,
{
    if n > 0 {
        if search(c, Probe::Off, State::RecordStart, inp, (n - 1) as nat).stop is Some {
            rejected_where(c, inp, (n - 1) as nat);
        } else {
            search_is_scan(c, inp, (n - 1) as nat);
        }
    }
}

/// A parser that reports exactly asks for four bytes beyond the record under way, the other
/// for two vectors and three bytes.
pub proof fn parsers_read_little_ahead(exact: bool)
    ensures
        slack(exact) == (if exact {
            4nat
        } else {
            (2 * 64 + 3) as nat
        }),
{
}

/// A probe for pairs turns down what a strict one does, but for a quote right behind a
/// closing one.
pub proof fn pairs_are_not_turned_down(c: Config, s: State, b: u8)
    ensures
        !(s == State::AfterClosingQuote && c.quote == Some(b)) ==> turns_down(c, Probe::Paired, s, b)
            == turns_down(c, Probe::Strict, s, b),
        s == State::AfterClosingQuote && c.quote == Some(b) ==> turns_down(c, Probe::Paired, s, b)
            == turns_down(c, Probe::Off, s, b),
        s == State::AfterClosingQuote && c.quote == Some(b) && c.quote_handling
            == QuoteHandling::Toggle ==> !turns_down(c, Probe::Paired, s, b),
{
}

/// Only a record is under way: one that a pass is in the middle of, or one whose first byte
/// has just been read. Blank lines and comments are not.
pub proof fn only_records_are_under_way(c: Config, inp: Seq<u8>, n: nat)
    requires
        n <= inp.len(),
    ensures
        open_since(c, false, inp, n) matches Some(i) ==> {
            let s = scan(c, beyond(inp), inp, (n - 1) as nat);
            &&& 0 <= i < n
            &&& s.halt is None
            &&& s.state != State::InComment
            &&& s.state != State::RecordStart ==> i == s.record_at
            &&& s.state == State::RecordStart ==> i == n - 1 && !line_end(c, inp[i]) && c.comment
                != Some(inp[i])
        },
{
    if n > 0 {
        let s = scan(c, beyond(inp), inp, (n - 1) as nat);
        scan_bounds(c, beyond(inp), inp, (n - 1) as nat);
        if s.halt is None && s.state != State::RecordStart && s.state != State::InComment {
            open_record(c, false, inp, (n - 1) as nat);
        }
    }
}

/// A parser that counts the bytes that end a record holds a record and those that follow it,
/// and nothing else.
pub proof fn runs_belong_to_their_record(c: Config, inp: Seq<u8>, n: nat)
    requires
        n <= inp.len(),
    ensures
        open_since(c, true, inp, n) matches Some(i) ==> exists|j: nat|
            j <= n && #[trigger] open_since(c, false, inp, j) == Some(i) && forall|k: int|
                j <= k < n ==> line_end(c, #[trigger] inp[k]),
    decreases n,
{
    if n > 0 {
        let m = (n - 1) as nat;
        runs_belong_to_their_record(c, inp, m);
        let s = scan(c, beyond(inp), inp, m);
        if let Some(i) = open_since(c, true, inp, n) {
            if s.halt is None && s.state != State::RecordStart {
                open_record(c, false, inp, m);
                open_record(c, true, inp, m);
                assert(open_since(c, false, inp, n) == Some(i));
            } else if c.terminator.ends(inp[m as int]) {
                let j = choose|j: nat|
                    j <= m && #[trigger] open_since(c, false, inp, j) == Some(i) && forall|k: int|
                        j <= k < m ==> line_end(c, #[trigger] inp[k]);
                assert(open_since(c, false, inp, j) == Some(i));
            } else {
                assert(open_since(c, false, inp, n) == Some(i));
            }
        }
    }
}

/// What a pass needs room for is the widest of what is under way, and no more than one that
/// has to be held.
pub proof fn needs_are_met_by_the_widest(c: Config, p: Pass, runs: bool, most: int)
    requires
        0 <= most,
        forall|n: nat|
            n <= p.inp.len() ==> (#[trigger] open_since(c, runs, p.inp, n) matches Some(i) ==> n
                - i <= most),
    ensures
        needs(c, p, !runs) <= most + (if runs {
            131int
        } else {
            4
        }),
{
    assert forall|n: nat| n <= p.inp.len() implies #[trigger] stretch(c, runs, p.inp, n)
        <= most by {
        assert(open_since(c, runs, p.inp, n) matches Some(i) ==> n - i <= most);
    }
    widest_within(c, runs, p.inp, p.inp.len(), most);
}

/// The first of some records are those that stand first; and an offset into what starts at
/// `base` is that much further on.
pub proof fn first_records_stand_first(log: Seq<Record>, records: Seq<Record>, base: int, i: int)
    ensures
        starts(log, records) <==> log.len() <= records.len() && forall|k: int|
            0 <= k < log.len() ==> #[trigger] log[k] == records[k],
        0 <= base && 0 <= i && base + i <= usize::MAX ==> (placed(Some(i), base) matches Some(at)
            && at == base + i),
        placed(None, base) is None,
{
    let first = records.take(log.len() as int);
    if log.len() <= records.len() {
        if starts(log, records) {
            assert forall|k: int| 0 <= k < log.len() implies #[trigger] log[k] == records[k] by {
                assert(first[k] == records[k]);
            }
        } else if forall|k: int| 0 <= k < log.len() ==> #[trigger] log[k] == records[k] {
            assert(first =~= log);
        }
    }
}

/// A header that the input ends in has no end: neither has one of which only the first
/// fields are there, nor one that is not there at all.
pub proof fn a_header_without_an_end(c: Config, lines: Seq<Line>, header: Seq<Seq<Part>>)
    requires
        apart(c),
        all_fit(c, lines),
        records_of(lines).len() == 0,
        begins(c, header),
    ensures
        ({
            let inp = text(c, lines) + record_text(c, header);
            header_search(c, inp, inp.len()) is None
        }),
{
    let inp = text(c, lines) + record_text(c, header);
    let read = read_up_to(c, lines, header, seq![]);
    assert(inp + seq![] =~= inp);
    scan_is_search(c, inp, inp.len());
}

} // verus!
