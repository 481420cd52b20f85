//! What the masks mean: properties of a position in a sequence of bytes.
//!
//! Everything here is specification. A position outside the sequence has no
//! property.

use vstd::prelude::*;

use super::scan::ScannerConfig;

verus! {

/// A quote stands at `i`.
pub open spec fn quote_at(k: ScannerConfig, x: Seq<u8>, i: int) -> bool {
    0 <= i < x.len() && k.quote == Some(x[i])
}

/// A delimiter stands at `i`.
pub open spec fn delim_at(k: ScannerConfig, x: Seq<u8>, i: int) -> bool {
    0 <= i < x.len() && x[i] == k.delim
}

/// A terminator byte stands at `i`.
pub open spec fn term_at(k: ScannerConfig, x: Seq<u8>, i: int) -> bool {
    0 <= i < x.len() && (x[i] == k.term || k.term_b == Some(x[i]))
}

/// After `n` bytes the scan is inside quotes: the number of quotes is odd.
pub open spec fn inside(k: ScannerConfig, x: Seq<u8>, n: int) -> bool
    decreases n,
{
    if n <= 0 {
        false
    } else {
        inside(k, x, n - 1) != quote_at(k, x, n - 1)
    }
}

/// A delimiter outside quotes.
pub open spec fn cut_at(k: ScannerConfig, x: Seq<u8>, i: int) -> bool {
    delim_at(k, x, i) && !inside(k, x, i + 1)
}

/// A terminator byte outside quotes.
pub open spec fn stop_at(k: ScannerConfig, x: Seq<u8>, i: int) -> bool {
    term_at(k, x, i) && !inside(k, x, i + 1)
}

/// The first byte of a run of terminator bytes.
pub open spec fn run_start(k: ScannerConfig, x: Seq<u8>, i: int) -> bool {
    stop_at(k, x, i) && !stop_at(k, x, i - 1)
}

/// The last byte of a run of terminator bytes.
pub open spec fn run_end(k: ScannerConfig, x: Seq<u8>, i: int) -> bool {
    stop_at(k, x, i) && !stop_at(k, x, i + 1)
}

/// A boundary that a field ends before.
pub open spec fn before_edge(k: ScannerConfig, x: Seq<u8>, i: int) -> bool {
    cut_at(k, x, i) || run_start(k, x, i)
}

/// A boundary that a field starts behind.
pub open spec fn behind_edge(k: ScannerConfig, x: Seq<u8>, i: int) -> bool {
    cut_at(k, x, i) || run_end(k, x, i)
}

/// An opening quote at the start of a field.
pub open spec fn opens(k: ScannerConfig, x: Seq<u8>, i: int) -> bool {
    behind_edge(k, x, i - 1) && quote_at(k, x, i)
}

/// The first content byte of a field.
pub open spec fn begins(k: ScannerConfig, x: Seq<u8>, i: int) -> bool {
    i < x.len() && ((behind_edge(k, x, i - 1) && !quote_at(k, x, i)) || opens(k, x, i - 1))
}

/// A closing quote at the end of a field.
pub open spec fn shuts(k: ScannerConfig, x: Seq<u8>, i: int) -> bool {
    quote_at(k, x, i) && !inside(k, x, i + 1) && before_edge(k, x, i + 1)
}

/// One past the last content byte of a field.
pub open spec fn ends(k: ScannerConfig, x: Seq<u8>, i: int) -> bool {
    (before_edge(k, x, i) && !shuts(k, x, i - 1)) || shuts(k, x, i)
}

/// A quote that is no content.
pub open spec fn gone(k: ScannerConfig, x: Seq<u8>, i: int) -> bool {
    quote_at(k, x, i) && if inside(k, x, i + 1) {
        !begins(k, x, i + 1)
    } else {
        !ends(k, x, i) && !(k.doubled_quotes && quote_at(k, x, i + 1))
    }
}

/// Whether a position is inside quotes depends on the bytes before it only.
pub proof fn inside_same(k: ScannerConfig, x: Seq<u8>, y: Seq<u8>, n: int)
    requires
        n <= x.len(),
        n <= y.len(),
        forall|j: int| 0 <= j < n ==> x[j] == y[j],
    ensures
        inside(k, x, n) == inside(k, y, n),
    decreases n,
{
    if n > 0 {
        inside_same(k, x, y, n - 1);
    }
}

/// What holds at a position depends on the bytes up to the next one only.
pub proof fn masks_same(k: ScannerConfig, x: Seq<u8>, y: Seq<u8>, i: int)
    requires
        0 <= i,
        i + 1 < x.len(),
        i + 1 < y.len(),
        forall|j: int| 0 <= j <= i + 1 ==> x[j] == y[j],
    ensures
        inside(k, x, i + 1) == inside(k, y, i + 1),
        stop_at(k, x, i) == stop_at(k, y, i),
        cut_at(k, x, i) == cut_at(k, y, i),
        run_start(k, x, i) == run_start(k, y, i),
        run_end(k, x, i) == run_end(k, y, i),
        before_edge(k, x, i) == before_edge(k, y, i),
        behind_edge(k, x, i) == behind_edge(k, y, i),
        begins(k, x, i) == begins(k, y, i),
        ends(k, x, i) == ends(k, y, i),
        gone(k, x, i) == gone(k, y, i),
        shuts(k, x, i) == shuts(k, y, i),
        opens(k, x, i) == opens(k, y, i),
{
    inside_same(k, x, y, i + 2);
    inside_same(k, x, y, i + 1);
    inside_same(k, x, y, i);
    inside_same(k, x, y, i - 1);
}

/// `n` bytes that have no property, before `x`.
pub open spec fn padded(pad: u8, n: nat, x: Seq<u8>) -> Seq<u8> {
    Seq::new(n, |i: int| pad) + x
}

/// A byte that is neither delimiter, terminator nor quote.
pub open spec fn neutral(k: ScannerConfig, b: u8) -> bool {
    b != k.delim && b != k.term && k.term_b != Some(b) && k.quote != Some(b)
}

/// Padding in front leaves the scan where it was.
pub proof fn inside_padded(k: ScannerConfig, pad: u8, n: nat, x: Seq<u8>, i: int)
    requires
        neutral(k, pad),
    ensures
        inside(k, padded(pad, n, x), i) == inside(k, x, i - n),
    decreases i,
{
    if i > 0 {
        inside_padded(k, pad, n, x, i - 1);
        let w = padded(pad, n, x);
        if n < i <= w.len() {
            assert(w[i - 1] == x[i - 1 - n]);
        }
    }
}

/// Padding in front moves everything on, and has no property itself.
pub proof fn masks_padded(k: ScannerConfig, pad: u8, n: nat, x: Seq<u8>, i: int)
    requires
        neutral(k, pad),
    ensures
        ({
            let w = padded(pad, n, x);
            &&& inside(k, w, i) == inside(k, x, i - n)
            &&& inside(k, w, i + 1) == inside(k, x, i + 1 - n)
            &&& run_end(k, w, i) == run_end(k, x, i - n)
            &&& behind_edge(k, w, i) == behind_edge(k, x, i - n)
            &&& begins(k, w, i) == begins(k, x, i - n)
            &&& ends(k, w, i) == ends(k, x, i - n)
            &&& gone(k, w, i) == gone(k, x, i - n)
        }),
{
    let w = padded(pad, n, x);
    let m = n as int;
    at_padded(k, pad, n, x, i - 2);
    at_padded(k, pad, n, x, i - 1);
    at_padded(k, pad, n, x, i);
    at_padded(k, pad, n, x, i + 1);
    assert(i + 1 - 1 == i);
    assert(behind_edge(k, w, i) == behind_edge(k, x, i - m));
    at_padded(k, pad, n, x, i + 2);
    assert(before_edge(k, w, i + 1) == before_edge(k, x, i + 1 - m));
    assert(before_edge(k, w, i) == before_edge(k, x, i - m));
    assert(behind_edge(k, w, i - 1) == behind_edge(k, x, i - 1 - m));
    assert(behind_edge(k, w, i - 2) == behind_edge(k, x, i - 2 - m));
    assert(opens(k, w, i) == opens(k, x, i - m));
    assert(opens(k, w, i - 1) == opens(k, x, i - 1 - m));
    assert(begins(k, w, i) == begins(k, x, i - m)) by {
        if i - m < 0 {
            assert(!behind_edge(k, x, i - 1 - m));
            assert(!behind_edge(k, x, i - 2 - m));
        }
    }
    assert(begins(k, w, i + 1) == begins(k, x, i + 1 - m)) by {
        if i + 1 - m < 0 {
            assert(!behind_edge(k, x, i - m));
            assert(!behind_edge(k, x, i - 1 - m));
        }
    }
    assert(shuts(k, w, i) == shuts(k, x, i - m));
    assert(shuts(k, w, i - 1) == shuts(k, x, i - 1 - m));
}

/// The bytes of a padded sequence.
proof fn at_padded(k: ScannerConfig, pad: u8, n: nat, x: Seq<u8>, i: int)
    requires
        neutral(k, pad),
    ensures
        ({
            let w = padded(pad, n, x);
            &&& quote_at(k, w, i) == quote_at(k, x, i - n)
            &&& delim_at(k, w, i) == delim_at(k, x, i - n)
            &&& term_at(k, w, i) == term_at(k, x, i - n)
            &&& inside(k, w, i) == inside(k, x, i - n)
            &&& inside(k, w, i + 1) == inside(k, x, i + 1 - n)
            &&& stop_at(k, w, i) == stop_at(k, x, i - n)
            &&& cut_at(k, w, i) == cut_at(k, x, i - n)
        }),
{
    inside_padded(k, pad, n, x, i);
    inside_padded(k, pad, n, x, i + 1);
    let w = padded(pad, n, x);
    if n <= i < w.len() {
        assert(w[i] == x[i - n]);
    } else if 0 <= i < n {
        assert(w[i] == pad);
    }
    assert(i + 1 - n == i - n + 1);
}

/// Bytes without a property, behind `x`.
pub proof fn masks_followed(k: ScannerConfig, x: Seq<u8>, tail: Seq<u8>, i: int)
    requires
        forall|j: int| 0 <= j < tail.len() ==> neutral(k, #[trigger] tail[j]),
        0 <= i < x.len(),
        i + 1 < x.len() || !quote_at(k, x, i),
    ensures
        ({
            let w = x + tail;
            &&& inside(k, w, i + 1) == inside(k, x, i + 1)
            &&& run_end(k, w, i) == run_end(k, x, i)
            &&& behind_edge(k, w, i) == behind_edge(k, x, i)
            &&& begins(k, w, i) == begins(k, x, i)
            &&& ends(k, w, i) == ends(k, x, i)
            &&& gone(k, w, i) == gone(k, x, i)
        }),
{
    let w = x + tail;
    inside_same(k, x, w, i);
    inside_same(k, x, w, i + 1);
    inside_same(k, x, w, i - 1);
    if i + 1 < x.len() {
        inside_same(k, x, w, i + 2);
    } else if i + 1 < w.len() {
        assert(w[i + 1] == tail[0]);
    }
}

} // verus!
