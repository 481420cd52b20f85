//! Text stays text: with ASCII control bytes, every field cut out of valid
//! UTF-8 is valid UTF-8.

use vstd::prelude::*;
use vstd::utf8::{
    is_char_boundary, is_char_boundary_iff_not_is_continuation_byte, is_continuation_byte,
    length_of_first_scalar, partial_valid_partial_invalid_utf8, pop_first_scalar,
    take_first_scalar, valid_first_scalar, valid_utf8, valid_utf8_concat, valid_utf8_split,
};

use super::dfa::table::State;
use super::grammar::{
    advance, fresh, is_space, scan, scan_running, shaped, trim_end, trim_start, Record, Scan,
};
use super::output::{completable, longest_text};
use crate::config::Config;

verus! {

/// Every field of the record is valid UTF-8.
pub open spec fn all_text(record: Record) -> bool {
    forall|i: int| 0 <= i < record.len() ==> valid_utf8(#[trigger] record[i])
}

/// One ASCII byte is text.
pub proof fn ascii_is_text(b: u8)
    requires
        b < 0x80,
    ensures
        valid_utf8(seq![b]),
{
    let s = seq![b];
    assert(valid_first_scalar(s)) by {
        vstd::utf8::utf8_byte_ranges_bitwise(b);
        assert(vstd::utf8::codepoint_width_1(b) < 0x80) by {
            assert(b & 0x7f == b) by (bit_vector)
                requires
                    b < 0x80,
            ;
        }
    }
    assert(pop_first_scalar(s) =~= seq![]);
    assert(valid_utf8(pop_first_scalar(s)));
}

/// Text followed by an ASCII byte is text.
pub proof fn push_ascii(s: Seq<u8>, b: u8)
    requires
        valid_utf8(s),
        b < 0x80,
    ensures
        valid_utf8(s.push(b)),
{
    ascii_is_text(b);
    valid_utf8_concat(s, seq![b]);
    assert(s.push(b) =~= s + seq![b]);
}

/// Text can be cut before and after an ASCII byte.
pub proof fn cut_at_ascii(s: Seq<u8>, i: int)
    requires
        valid_utf8(s),
        0 <= i < s.len(),
        s[i] < 0x80,
    ensures
        valid_utf8(s.take(i)),
        valid_utf8(s.skip(i)),
        valid_utf8(s.skip(i + 1)),
{
    is_char_boundary_iff_not_is_continuation_byte(s, i);
    assert(is_char_boundary(s, i));
    assert(!is_continuation_byte(s[i]));
    valid_utf8_split(s, i);
    assert(s.subrange(0, i) =~= s.take(i));
    assert(s.subrange(i, s.len() as int) =~= s.skip(i));
    let rest = s.skip(i);
    assert(rest[0] == s[i]);
    assert(valid_first_scalar(rest));
    assert(pop_first_scalar(rest) =~= s.skip(i + 1));
}

/// What precedes a valid part of valid text is valid, and so is what follows it.
pub proof fn cut_text(s: Seq<u8>, i: int)
    requires
        0 <= i <= s.len(),
        valid_utf8(s),
        valid_utf8(s.take(i)),
    ensures
        valid_utf8(s.skip(i)),
{
    assert(s.subrange(0, i) =~= s.take(i));
    assert(s.subrange(i, s.len() as int) =~= s.skip(i));
    if !valid_utf8(s.skip(i)) {
        partial_valid_partial_invalid_utf8(s, i);
    }
}

/// The first scalar of text is text.
proof fn first_scalar_is_text(s: Seq<u8>)
    requires
        valid_first_scalar(s),
    ensures
        valid_utf8(take_first_scalar(s)),
        1 <= length_of_first_scalar(s) <= 4,
        length_of_first_scalar(s) <= s.len(),
        length_of_first_scalar(s) == 1 <==> s[0] < 0x80,
        length_of_first_scalar(s) > 1 ==> forall|i: int|
            0 <= i < length_of_first_scalar(s) ==> #[trigger] s[i] >= 0x80,
{
    let t = take_first_scalar(s);
    assert(valid_first_scalar(t));
    assert(pop_first_scalar(t) =~= seq![]);
    assert(valid_utf8(pop_first_scalar(t)));
}

/// Trimming keeps text text.
pub proof fn trim_start_text(s: Seq<u8>)
    requires
        valid_utf8(s),
    ensures
        valid_utf8(trim_start(s)),
    decreases s.len(),
{
    if s.len() > 0 && is_space(s[0]) {
        cut_at_ascii(s, 0);
        trim_start_text(s.skip(1));
    }
}

/// Trimming keeps text text.
pub proof fn trim_end_text(s: Seq<u8>)
    requires
        valid_utf8(s),
    ensures
        valid_utf8(trim_end(s)),
    decreases s.len(),
{
    if s.len() > 0 && is_space(s.last()) {
        cut_at_ascii(s, s.len() - 1);
        assert(s.take(s.len() - 1) =~= s.drop_last());
        trim_end_text(s.drop_last());
    }
}

/// A field that is text is handed out as text.
pub proof fn shaped_text(c: Config, s: Seq<u8>)
    requires
        valid_utf8(s),
    ensures
        valid_utf8(shaped(c, s)),
{
    trim_start_text(s);
    trim_end_text(trim_start(s));
}

/// What a pass holds is text.
pub open spec fn holds_text(s: Scan) -> bool {
    &&& all_text(s.fields)
    &&& valid_utf8(s.cur)
    &&& forall|i: int| 0 <= i < s.records.len() ==> all_text(#[trigger] s.records[i])
}

/// The bytes of a multi-byte sequence are kept or dropped as a whole.
proof fn scan_wide(c: Config, boundary: int, inp: Seq<u8>, m: nat, j: nat)
    requires
        c.ascii(),
        1 <= j,
        m + j <= inp.len(),
        forall|i: int| m <= i < m + j ==> inp[i] >= 0x80,
        scan(c, boundary, inp, m + j).halt.is_none(),
    ensures
        ({
            let s = scan(c, boundary, inp, m);
            let t = scan(c, boundary, inp, m + j);
            &&& t.fields == s.fields
            &&& t.records == s.records
            &&& t.state == State::InField || t.state == State::InQuotedField || t.state
                == State::InComment
            &&& t.state == State::InComment ==> t.cur == s.cur
            &&& t.state != State::InComment ==> t.cur == s.cur + inp.subrange(m as int, (m + j) as int)
        }),
    decreases j,
{
    scan_running(c, boundary, inp, (m + j - 1) as nat, m + j);
    scan_running(c, boundary, inp, m, m + j);
    let b = inp[m + j - 1];
    let s = scan(c, boundary, inp, m);
    let p = scan(c, boundary, inp, (m + j - 1) as nat);
    let t = scan(c, boundary, inp, m + j);
    super::grammar::scan_bounds(c, boundary, inp, (m + j - 1) as nat);
    assert(b >= 0x80);
    assert(c.controls()[0] == Some(c.delimiter));
    assert(c.controls()[1] == Some(c.terminator.pair().0));
    assert(c.controls()[2] == c.terminator.pair().1);
    assert(c.controls()[3] == c.quote);
    assert(c.controls()[4] == c.escape);
    assert(c.controls()[5] == c.comment);
    assert(!c.terminator.ends(b));
    assert(t == advance(c, boundary, p, b, m + j - 1));
    if j > 1 {
        scan_wide(c, boundary, inp, m, (j - 1) as nat);
        assert(inp.subrange(m as int, (m + j) as int) =~= inp.subrange(
            m as int,
            (m + j - 1) as int,
        ).push(b));
        if t.state != State::InComment {
            assert(t.cur =~= s.cur + inp.subrange(m as int, (m + j) as int));
        }
    } else {
        assert(inp.subrange(m as int, (m + j) as int) =~= seq![b]);
        assert(s.cur.push(b) =~= s.cur + seq![b]);
    }
}

/// A pass over text, from some way on, holds text.
proof fn scan_text_from(c: Config, boundary: int, inp: Seq<u8>, m: nat, n: nat)
    requires
        c.ascii(),
        m <= n <= inp.len(),
        valid_utf8(inp.subrange(m as int, n as int)),
        holds_text(scan(c, boundary, inp, m)),
        scan(c, boundary, inp, n).halt.is_none(),
    ensures
        holds_text(scan(c, boundary, inp, n)),
    decreases n - m,
{
    let sub = inp.subrange(m as int, n as int);
    if sub.len() > 0 {
        first_scalar_is_text(sub);
        let l = length_of_first_scalar(sub) as nat;
        let s = scan(c, boundary, inp, m);
        let t = scan(c, boundary, inp, m + l);
        scan_running(c, boundary, inp, m + l, n);
        scan_running(c, boundary, inp, m, n);
        assert(inp.subrange(m as int, (m + l) as int) =~= take_first_scalar(sub));
        assert(inp.subrange((m + l) as int, n as int) =~= pop_first_scalar(sub));
        if l == 1 {
            let b = inp[m as int];
            assert(sub[0] == b);
            assert(t == advance(c, boundary, s, b, m as int));
            push_ascii(s.cur, b);
            shaped_text(c, s.cur);
            shaped_text(c, s.cur.push(b));
            assert(valid_utf8(Seq::<u8>::empty()));
            assert(holds_text(t));
        } else {
            assert forall|i: int| m <= i < m + l implies inp[i] >= 0x80 by {
                assert(sub[i - m] == inp[i]);
            }
            scan_wide(c, boundary, inp, m, l);
            valid_utf8_concat(s.cur, take_first_scalar(sub));
            assert(holds_text(t));
        }
        scan_text_from(c, boundary, inp, m + l, n);
    }
}

/// A pass over text holds text: with ASCII control bytes, every field cut out
/// of valid UTF-8 is valid UTF-8.
pub proof fn scan_text(c: Config, boundary: int, inp: Seq<u8>, n: nat)
    requires
        c.ascii(),
        n <= inp.len(),
        valid_utf8(inp.take(n as int)),
        scan(c, boundary, inp, n).halt.is_none(),
    ensures
        holds_text(scan(c, boundary, inp, n)),
{
    assert(inp.take(n as int) =~= inp.subrange(0, n as int));
    assert(valid_utf8(Seq::<u8>::empty()));
    assert(scan(c, boundary, inp, 0) == fresh());
    scan_text_from(c, boundary, inp, 0, n);
}

/// ASCII is text.
pub proof fn ascii_prefix(s: Seq<u8>, n: int)
    requires
        0 <= n <= s.len(),
        forall|i: int| 0 <= i < n ==> #[trigger] s[i] < 0x80,
    ensures
        valid_utf8(s.take(n)),
    decreases n,
{
    if n > 0 {
        ascii_prefix(s, n - 1);
        push_ascii(s.take(n - 1), s[n - 1]);
        assert(s.take(n - 1).push(s[n - 1]) =~= s.take(n));
    } else {
        assert(s.take(0) =~= seq![]);
    }
}

/// A longer stretch of text starts with the shorter one, and goes on with text.
pub proof fn extend_text(inp: Seq<u8>, a: int, b: int)
    requires
        0 <= a <= b <= inp.len(),
        valid_utf8(inp.take(a)),
        valid_utf8(inp.subrange(a, b)),
    ensures
        valid_utf8(inp.take(b)),
{
    valid_utf8_concat(inp.take(a), inp.subrange(a, b));
    assert(inp.take(a) + inp.subrange(a, b) =~= inp.take(b));
}

/// Where the text after a stretch of text stops, the whole stops being text.
pub proof fn longest_text_shift(inp: Seq<u8>, a: int, b: int, n: int)
    requires
        0 <= a <= b <= inp.len(),
        valid_utf8(inp.take(a)),
        longest_text(inp.subrange(a, b), n),
        b == inp.len() || !completable(inp.subrange(a, b).skip(n)),
    ensures
        longest_text(inp, a + n),
{
    let sub = inp.subrange(a, b);
    assert(inp.subrange(a, a + n) =~= sub.take(n));
    extend_text(inp, a, a + n);
    assert forall|m: int| a + n < m <= inp.len() implies !valid_utf8(#[trigger] inp.take(m)) by {
        if valid_utf8(inp.take(m)) {
            let w = inp.take(m);
            assert(w.take(a + n) =~= inp.take(a + n));
            cut_text(w, a + n);
            if m <= b {
                // a longer valid prefix of `sub`
                assert(w.take(a) =~= inp.take(a));
                cut_text(w, a);
                assert(w.skip(a) =~= sub.take(m - a));
            } else {
                let tail = sub.skip(n);
                assert(w.skip(a + n) =~= tail + inp.subrange(b, m));
            }
        }
    }
}

} // verus!
