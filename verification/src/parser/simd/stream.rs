//! From the masks of single vectors to the whole input: lists of offsets, and
//! the count of fields.

use vstd::prelude::*;

use super::bitops::{bit, ones};
use super::chars_of;
use super::fieldcount::in_step;
use super::fields::{
    bad_line, field_start, line_cuts, line_start, pieces, rank, regular, spots, spots_join,
};
use super::findstart::{readable, readable_bytes};
use super::index::{bit_offsets, wrapped};
use super::masks::{
    begins, behind_edge, cut_at, ends, gone, inside, masks_followed, masks_padded, masks_same,
    neutral, padded, quote_at, run_end, stop_at, term_at,
};
use super::scan::{describes, ScannerConfig, VectorOutput};
use crate::config::Config;

verus! {

/// Buffer offsets as offsets in the input.
pub open spec fn shifted(offs: Seq<usize>, by: int) -> Seq<int> {
    offs.map_values(|o: usize| o + by)
}

/// The set bits of a mask, as positions of the input.
proof fn bits_are_spots(mask: u64, test: spec_fn(int) -> bool, a: int, n: int)
    requires
        0 <= n <= 64,
        forall|j: int| 0 <= j < 64 ==> #[trigger] bit(mask, j) == test(a + j),
    ensures
        spots(|j: int| bit(mask, j), 0, n).map_values(|j: int| a + j) == spots(test, a, a + n),
    decreases n,
{
    let f = |j: int| a + j;
    let own = |j: int| bit(mask, j);
    if n > 0 {
        bits_are_spots(mask, test, a, n - 1);
        assert(own(n - 1) == test(a + (n - 1)));
        if own(n - 1) {
            assert(spots(own, 0, n).map_values(f) =~= spots(own, 0, n - 1).map_values(f).push(
                a + (n - 1),
            ));
        }
    } else {
        assert(spots(own, 0, 0).map_values(f) =~= seq![]);
    }
}

/// The offsets of a vector's set bits are the positions where the property
/// holds, counted in the buffer.
pub proof fn offsets_are_spots(
    mask: u64,
    base: usize,
    test: spec_fn(int) -> bool,
    a: int,
    consumed: int,
)
    requires
        forall|j: int| 0 <= j < 64 ==> #[trigger] bit(mask, j) == test(a + j),
        forall|i: int| a <= i && #[trigger] test(i) ==> i >= consumed,
        0 <= consumed,
        -64 <= a - consumed,
        a - consumed <= usize::MAX,
        forall|i: int| a <= i && #[trigger] test(i) ==> i - consumed <= usize::MAX,
        base == (if a >= consumed {
            a - consumed
        } else {
            a - consumed + usize::MAX + 1
        }),
    ensures
        shifted(bit_offsets(mask, base), consumed) == spots(test, a, a + 64),
{
    bits_are_spots(mask, test, a, 64);
    let own = |j: int| bit(mask, j);
    let s = spots(own, 0, 64);
    super::fields::spots_are(own, 0, 64);
    let offs = bit_offsets(mask, base);
    assert forall|i: int| 0 <= i < s.len() implies shifted(offs, consumed)[i] == spots(
        test,
        a,
        a + 64,
    )[i] by {
        let j = s[i];
        assert(own(j));
        assert(bit(mask, j));
        assert(test(a + j));
        assert(offs[i] == wrapped(base, j));
        assert(spots(test, a, a + 64)[i] == a + j);
    }
    assert(shifted(offs, consumed) =~= spots(test, a, a + 64));
}

/// Boundaries counted vector by vector.
proof fn ranks_add(k: ScannerConfig, x: Seq<u8>, a: int, d: u64, j: int)
    requires
        -64 <= a,
        0 <= j <= 64,
        forall|i: int| 0 <= i < 64 ==> #[trigger] bit(d, i) == behind_edge(k, x, a + i),
    ensures
        rank(k, x, a + j) == rank(k, x, a) + ones(d, j),
    decreases j,
{
    if j > 0 {
        ranks_add(k, x, a, d, j - 1);
        assert(bit(d, j - 1) == behind_edge(k, x, a + (j - 1)));
        if a + j <= 0 {
            assert(!behind_edge(k, x, a + (j - 1)));
        }
    }
}

/// Remainders can be taken before adding.
proof fn remainder_adds(a: int, b: int, n: int)
    requires
        n >= 1,
        0 <= a,
        0 <= b,
    ensures
        (a % n + b) % n == (a + b) % n,
{
    vstd::arithmetic::div_mod::lemma_add_mod_noop_right(b, a, n);
}

/// A vector's boundaries are in step just where the input stays regular.
pub proof fn in_step_is_regular(c: Config, x: Seq<u8>, z: int, d: u64, t: u64)
    requires
        readable(c),
        -64 <= z,
        regular(chars_of(c), x, c.field_count->0 as int, z),
        forall|j: int|
            0 <= j < 64 ==> #[trigger] bit(d, j) == behind_edge(chars_of(c), x, z + j),
        forall|j: int| 0 <= j < 64 ==> #[trigger] bit(t, j) == run_end(chars_of(c), x, z + j),
    ensures
        ({
            let k = chars_of(c);
            let n = c.field_count->0 as int;
            let phase = rank(k, x, z) as int % n;
            &&& in_step(n, phase, d, t) <==> regular(k, x, n, z + 64)
            &&& (phase + ones(d, 64)) % n == rank(k, x, z + 64) as int % n
        }),
{
    readable_bytes(c);
    let k = chars_of(c);
    let n = c.field_count->0 as int;
    let phase = rank(k, x, z) as int % n;
    assert forall|j: int| 0 <= j <= 64 implies #[trigger] ones(d, j) + rank(k, x, z) == rank(
        k,
        x,
        z + j,
    ) && (phase + ones(d, j)) % n == rank(k, x, z + j) as int % n && (phase + ones(d, j) + 1) % n
        == (rank(k, x, z + j) as int + 1) % n by {
        ranks_add(k, x, z, d, j);
        remainder_adds(rank(k, x, z) as int, ones(d, j) as int, n);
        remainder_adds(rank(k, x, z) as int, ones(d, j) as int + 1, n);
    }
    assert(ones(d, 64) + rank(k, x, z) == rank(k, x, z + 64));
    if in_step(n, phase, d, t) {
        assert forall|i: int| 0 <= i < z + 64 && #[trigger] behind_edge(k, x, i) implies (run_end(
            k,
            x,
            i,
        ) <==> (rank(k, x, i) as int + 1) % n == 0) by {
            if i >= z {
                let j = i - z;
                assert(z + j == i);
                assert(bit(d, j) == behind_edge(k, x, z + j));
                assert(bit(t, j) == run_end(k, x, z + j));
                assert(ones(d, j) + rank(k, x, z) == rank(k, x, z + j));
            }
        }
    }
    if regular(k, x, n, z + 64) {
        assert forall|j: int| 0 <= j < 64 && #[trigger] bit(d, j) implies bit(t, j) == ((phase
            + ones(d, j) + 1) % n == 0) by {
            assert(behind_edge(k, x, z + j));
            assert(bit(t, j) == run_end(k, x, z + j));
            assert(ones(d, j) + rank(k, x, z) == rank(k, x, z + j));
        }
    }
}

/// Where an input stops being regular there is a first boundary that is out of order.
pub proof fn first_irregular(k: ScannerConfig, x: Seq<u8>, n: int, a: int, b: int) -> (i: int)
    requires
        regular(k, x, n, a),
        !regular(k, x, n, b),
        a <= b,
    ensures
        a <= i < b,
        0 <= i,
        regular(k, x, n, i),
        behind_edge(k, x, i),
        run_end(k, x, i) != ((rank(k, x, i) as int + 1) % n == 0),
    decreases b - a,
{
    if regular(k, x, n, b - 1) {
        let i = choose|i: int|
            0 <= i < b && #[trigger] behind_edge(k, x, i) && !(run_end(k, x, i) <==> (rank(
                k,
                x,
                i,
            ) as int + 1) % n == 0);
        assert(i == b - 1);
        b - 1
    } else {
        first_irregular(k, x, n, a, b - 1)
    }
}

/// Before the input nothing has a property.
proof fn nothing_before(k: ScannerConfig, x: Seq<u8>, i: int)
    requires
        i < 0,
    ensures
        !begins(k, x, i),
        !ends(k, x, i),
        !gone(k, x, i),
        !behind_edge(k, x, i),
        !run_end(k, x, i),
{
}

/// What a scanner says of a stream holds of the input without the padding.
pub proof fn unpadded_masks(
    out: VectorOutput,
    k: ScannerConfig,
    pad: u8,
    lead: nat,
    x: Seq<u8>,
    z: int,
)
    requires
        neutral(k, pad),
        describes(out, k, padded(pad, lead, x), z + lead),
    ensures
        describes(out, k, x, z),
{
    let w = padded(pad, lead, x);
    assert forall|j: int| 0 <= j < 64 implies #[trigger] bit(out.b, j) == begins(k, x, z + j) by {
        masks_padded(k, pad, lead, x, z + lead + j);
    }
    assert forall|j: int| 0 <= j < 64 implies #[trigger] bit(out.e, j) == ends(k, x, z + j) by {
        masks_padded(k, pad, lead, x, z + lead + j);
    }
    assert forall|j: int| 0 <= j < 64 implies #[trigger] bit(out.r, j) == gone(k, x, z + j) by {
        masks_padded(k, pad, lead, x, z + lead + j);
    }
    assert forall|j: int| 0 <= j < 64 implies #[trigger] bit(out.d_struct, j) == behind_edge(
        k,
        x,
        z + j,
    ) by {
        masks_padded(k, pad, lead, x, z + lead + j);
    }
    assert forall|j: int| 0 <= j < 64 implies #[trigger] bit(out.term, j) == run_end(
        k,
        x,
        z + j,
    ) by {
        masks_padded(k, pad, lead, x, z + lead + j);
    }
}

/// What the masks say of the start of an input they say of the whole.
pub proof fn masks_of_start(out: VectorOutput, k: ScannerConfig, x: Seq<u8>, y: Seq<u8>, z: int)
    requires
        z + 64 < x.len(),
        z + 64 < y.len(),
        forall|i: int| 0 <= i <= z + 64 ==> x[i] == y[i],
        describes(out, k, x, z),
    ensures
        describes(out, k, y, z),
{
    assert forall|j: int| 0 <= j < 64 implies #[trigger] bit(out.b, j) == begins(k, y, z + j) by {
        mask_at_start(k, x, y, z + j);
    }
    assert forall|j: int| 0 <= j < 64 implies #[trigger] bit(out.e, j) == ends(k, y, z + j) by {
        mask_at_start(k, x, y, z + j);
    }
    assert forall|j: int| 0 <= j < 64 implies #[trigger] bit(out.r, j) == gone(k, y, z + j) by {
        mask_at_start(k, x, y, z + j);
    }
    assert forall|j: int| 0 <= j < 64 implies #[trigger] bit(out.d_struct, j) == behind_edge(
        k,
        y,
        z + j,
    ) by {
        mask_at_start(k, x, y, z + j);
    }
    assert forall|j: int| 0 <= j < 64 implies #[trigger] bit(out.term, j) == run_end(
        k,
        y,
        z + j,
    ) by {
        mask_at_start(k, x, y, z + j);
    }
}

/// A position whose next byte is there as well.
pub proof fn mask_at_start(k: ScannerConfig, x: Seq<u8>, y: Seq<u8>, i: int)
    requires
        i + 1 < x.len(),
        i + 1 < y.len(),
        forall|j: int| 0 <= j <= i + 1 ==> x[j] == y[j],
    ensures
        begins(k, x, i) == begins(k, y, i),
        ends(k, x, i) == ends(k, y, i),
        gone(k, x, i) == gone(k, y, i),
        behind_edge(k, x, i) == behind_edge(k, y, i),
        run_end(k, x, i) == run_end(k, y, i),
{
    if i >= 0 {
        masks_same(k, x, y, i);
    } else {
        nothing_before(k, x, i);
        nothing_before(k, y, i);
    }
}

/// The masks of an input that ends with a terminator, from those of the input
/// with padding behind it.
pub proof fn clipped_masks(
    out: VectorOutput,
    b: u64,
    k: ScannerConfig,
    x: Seq<u8>,
    tail: Seq<u8>,
    z: int,
)
    requires
        forall|j: int| 0 <= j < tail.len() ==> neutral(k, #[trigger] tail[j]),
        x.len() > 0,
        !quote_at(k, x, x.len() - 1),
        describes(out, k, x + tail, z),
        forall|j: int|
            0 <= j < 64 ==> #[trigger] bit(b, j) == (bit(out.b, j) && z + j < x.len()),
    ensures
        describes(VectorOutput { b, ..out }, k, x, z),
{
    let y = x + tail;
    assert forall|i: int|
        #![trigger ends(k, x, i)]
        #![trigger gone(k, x, i)]
        #![trigger behind_edge(k, x, i)]
        #![trigger run_end(k, x, i)]
        #![trigger begins(k, x, i)]
        true implies ends(k, x, i) == ends(k, y, i) && gone(k, x, i) == gone(k, y, i)
        && behind_edge(k, x, i) == behind_edge(k, y, i) && run_end(k, x, i) == run_end(k, y, i)
        && begins(k, x, i) == (begins(k, y, i) && i < x.len()) by {
        if i < 0 {
            nothing_before(k, x, i);
            nothing_before(k, y, i);
        } else if i < x.len() {
            masks_followed(k, x, tail, i);
        } else {
            nothing_in_padding(k, x, tail, i);
        }
    }
}

/// Padding holds nothing.
proof fn nothing_in_padding(k: ScannerConfig, x: Seq<u8>, tail: Seq<u8>, i: int)
    requires
        forall|j: int| 0 <= j < tail.len() ==> neutral(k, #[trigger] tail[j]),
        x.len() > 0,
        !quote_at(k, x, x.len() - 1),
        x.len() <= i,
    ensures
        !ends(k, x, i),
        !gone(k, x, i),
        !behind_edge(k, x, i),
        !run_end(k, x, i),
        !ends(k, x + tail, i),
        !gone(k, x + tail, i),
        !behind_edge(k, x + tail, i),
        !run_end(k, x + tail, i),
{
    let y = x + tail;
    if i < y.len() {
        assert(y[i] == tail[i - x.len()]);
        assert(neutral(k, tail[i - x.len()]));
    }
}

/// Where two inputs start alike, their lines do.
pub proof fn lines_of_start(k: ScannerConfig, x: Seq<u8>, y: Seq<u8>, m: int, i: int)
    requires
        0 <= i <= m <= x.len(),
        m <= y.len(),
        forall|j: int| 0 <= j < m ==> x[j] == y[j],
    ensures
        inside(k, x, i) == inside(k, y, i),
        line_start(k, x, i) == line_start(k, y, i),
        line_cuts(k, x, i) == line_cuts(k, y, i),
        field_start(k, x, i) == field_start(k, y, i),
        pieces(k, x, i).len() == pieces(k, y, i).len(),
        i < m ==> stop_at(k, x, i) == stop_at(k, y, i),
        i < m ==> cut_at(k, x, i) == cut_at(k, y, i),
        i < m ==> term_at(k, x, i) == term_at(k, y, i),
        i < m ==> forall|n: int| #[trigger] bad_line(k, x, n, i) == bad_line(k, y, n, i),
    decreases i,
{
    if i > 0 {
        lines_of_start(k, x, y, m, i - 1);
        if i > 1 {
            lines_of_start(k, x, y, m, i - 2);
        }
    }
    if i < m {
        assert(inside(k, x, i + 1) == (inside(k, x, i) != quote_at(k, x, i)));
        assert(inside(k, y, i + 1) == (inside(k, y, i) != quote_at(k, y, i)));
    }
}

/// Where two inputs start alike, they have as many boundaries.
pub proof fn rank_of_start(k: ScannerConfig, x: Seq<u8>, y: Seq<u8>, m: int, i: int)
    requires
        i < m <= x.len(),
        m <= y.len(),
        forall|j: int| 0 <= j < m ==> x[j] == y[j],
    ensures
        rank(k, x, i) == rank(k, y, i),
    decreases i,
{
    if i > 0 {
        rank_of_start(k, x, y, m, i - 1);
        mask_at_start(k, x, y, i - 1);
    }
}

/// A property that no position before the input has: collecting from before
/// the input on, or from its start, is the same.
pub proof fn from_negative(test: spec_fn(int) -> bool, a: int, b: int)
    requires
        forall|i: int| i < 0 ==> !#[trigger] test(i),
        a <= b,
    ensures
        spots(test, 0, b) == spots(test, 0, a) + spots(test, a, b),
{
    if a >= 0 {
        spots_join(test, 0, a, b);
    } else {
        nothing_negative(test, a, if b < 0 {
            b
        } else {
            0
        });
        if b >= 0 {
            spots_join(test, a, 0, b);
        }
        assert(spots(test, 0, a) =~= seq![]);
        assert(spots(test, 0, b) =~= spots(test, 0, a) + spots(test, a, b));
    }
}

/// Before the input there are no spots.
proof fn nothing_negative(test: spec_fn(int) -> bool, a: int, b: int)
    requires
        forall|i: int| i < 0 ==> !#[trigger] test(i),
        b <= 0,
    ensures
        spots(test, a, b) == Seq::<int>::empty(),
    decreases b - a,
{
    if a < b {
        nothing_negative(test, a, b - 1);
        assert(!test(b - 1));
    }
}

/// A list of offsets, extended by those of a vector.
pub proof fn extended(
    offs: Seq<usize>,
    head: int,
    mask: u64,
    base: usize,
    test: spec_fn(int) -> bool,
    z: int,
    consumed: int,
)
    requires
        0 <= head <= offs.len(),
        forall|j: int| 0 <= j < 64 ==> #[trigger] bit(mask, j) == test(z + j),
        forall|i: int| i < 0 ==> !#[trigger] test(i),
        0 <= consumed,
        consumed <= z || consumed == 0,
        -64 <= z,
        z - consumed <= usize::MAX,
        forall|i: int| #[trigger] test(i) ==> i - consumed <= usize::MAX,
        base == (if z >= consumed {
            z - consumed
        } else {
            z - consumed + usize::MAX + 1
        }),
    ensures
        shifted((offs + bit_offsets(mask, base)).skip(head), consumed) == shifted(
            offs.skip(head),
            consumed,
        ) + spots(test, z, z + 64),
{
    offsets_are_spots(mask, base, test, z, consumed);
    let more = bit_offsets(mask, base);
    assert((offs + more).skip(head) =~= offs.skip(head) + more);
    assert(shifted(offs.skip(head) + more, consumed) =~= shifted(offs.skip(head), consumed)
        + shifted(more, consumed));
}

/// A list without its first entries.
pub proof fn dropped(offs: Seq<usize>, head: int, n: int, by: int, all: Seq<int>, done: int)
    requires
        0 <= n,
        0 <= head,
        head + n <= offs.len(),
        0 <= done <= all.len(),
        shifted(offs.skip(head), by) == all.skip(done),
    ensures
        done + n <= all.len(),
        shifted(offs.skip(head + n), by) == all.skip(done + n),
{
    let live = shifted(offs.skip(head), by);
    assert(live.len() == all.skip(done).len());
    let rest = shifted(offs.skip(head + n), by);
    let left = all.skip(done + n);
    assert forall|i: int| 0 <= i < left.len() implies rest[i] == left[i] by {
        assert(live[n + i] == all.skip(done)[n + i]);
    }
    assert(rest =~= left);
}

/// A property that nothing has from `m` on.
pub proof fn nothing_behind(test: spec_fn(int) -> bool, a: int, m: int, b: int)
    requires
        m <= b,
        forall|i: int| m <= i ==> !#[trigger] test(i),
    ensures
        spots(test, a, m) == spots(test, a, b),
    decreases b - m,
{
    if m < b {
        nothing_behind(test, a, m, b - 1);
        assert(!test(b - 1));
        if b <= a {
            assert(spots(test, a, m) =~= spots(test, a, b));
        }
    }
}

/// Behind the input no boundaries are counted.
pub proof fn rank_to_end(k: ScannerConfig, x: Seq<u8>, i: int)
    requires
        i >= x.len(),
    ensures
        rank(k, x, i) == rank(k, x, x.len() as int),
    decreases i,
{
    if i > x.len() {
        rank_to_end(k, x, i - 1);
    }
}

} // verus!
