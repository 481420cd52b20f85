//! Index extraction and record assembly: turns per-vector `B`/`E`/`R`
//! bitmasks into buffer offsets and compacts fields around `R` in place.

use vstd::prelude::*;

use super::bitops::{bit, bits_lowest, bits_of_one};
use super::fields::spots;
use crate::error::Error;
use crate::parser::fold::{cut, in_turn, presentable, refuses, spans_within, Accumulator, Fold};
use crate::parser::grammar::Record;
use crate::parser::output::Output;

verus! {

/// The bytes of `buf[b..e)` whose offsets are not among the removed ones.
pub open spec fn kept(buf: Seq<u8>, b: int, e: int, removed: Seq<usize>) -> Seq<u8>
    decreases e - b,
{
    if e <= b {
        seq![]
    } else if removed.contains((e - 1) as usize) {
        kept(buf, b, e - 1, removed)
    } else {
        kept(buf, b, e - 1, removed).push(buf[e - 1])
    }
}

/// What is kept depends on the bytes in the range only.
pub proof fn kept_same(one: Seq<u8>, other: Seq<u8>, b: int, e: int, removed: Seq<usize>)
    requires
        forall|i: int| b <= i < e ==> one[i] == other[i],
    ensures
        kept(one, b, e, removed) == kept(other, b, e, removed),
    decreases e - b,
{
    if b < e {
        kept_same(one, other, b, e - 1, removed);
    }
}

/// Without removals all is kept.
proof fn kept_all(buf: Seq<u8>, b: int, e: int, removed: Seq<usize>)
    requires
        0 <= b <= e <= buf.len() <= usize::MAX,
        forall|i: int| b <= i < e ==> !removed.contains(#[trigger] (i as usize)),
    ensures
        kept(buf, b, e, removed) == buf.subrange(b, e),
    decreases e - b,
{
    if b < e {
        kept_all(buf, b, e - 1, removed);
        assert(!removed.contains((e - 1) as usize));
        assert(buf.subrange(b, e) =~= buf.subrange(b, e - 1).push(buf[e - 1]));
    } else {
        assert(buf.subrange(b, e) =~= seq![]);
    }
}

/// No more is kept than there is.
proof fn kept_len(buf: Seq<u8>, b: int, e: int, removed: Seq<usize>)
    ensures
        b <= e ==> kept(buf, b, e, removed).len() <= e - b,
    decreases e - b,
{
    if b < e {
        kept_len(buf, b, e - 1, removed);
    }
}

/// The record of `n` fields whose first field is number `at`.
pub open spec fn assembled(
    buf: Seq<u8>,
    n: int,
    b_offs: Seq<usize>,
    e_offs: Seq<usize>,
    removed: Seq<usize>,
    at: int,
) -> Record {
    Seq::new(
        n as nat,
        |j: int| kept(buf, b_offs[at + j] as int, e_offs[at + j] as int, removed),
    )
}

/// The first `total` fields lie in the buffer one after the other.
pub open spec fn in_order(b_offs: Seq<usize>, e_offs: Seq<usize>, total: int, len: int) -> bool {
    &&& total <= b_offs.len()
    &&& total <= e_offs.len()
    &&& forall|i: int| 0 <= i < total ==> #[trigger] b_offs[i] <= e_offs[i] <= len
    &&& forall|i: int, j: int| 0 <= i < j < total ==> e_offs[i] <= b_offs[j]
}

/// The offsets grow.
pub open spec fn ascending(offs: Seq<usize>) -> bool {
    forall|i: int, j: int| 0 <= i < j < offs.len() ==> offs[i] < offs[j]
}

/// Move the kept bytes of `buf[b..e)` together at `b`, and say how many they are.
fn compact(buf: &mut [u8], b: usize, e: usize, r_offs: &[usize], from: usize) -> (r: usize)
    requires
        b <= e <= old(buf)@.len(),
        ascending(r_offs@),
        from <= r_offs@.len(),
        forall|i: int| 0 <= i < from ==> r_offs@[i] < b,
        from < r_offs@.len() ==> r_offs@[from as int] >= b,
    ensures
        final(buf)@.len() == old(buf)@.len(),
        b + r <= e,
        final(buf)@.subrange(b as int, b + r) == kept(old(buf)@, b as int, e as int, r_offs@),
        forall|i: int| 0 <= i < b || e <= i < old(buf)@.len() ==> final(buf)@[i] == old(buf)@[i],
{
    let ghost before = buf@;
    let mut write: usize = b;
    let mut i: usize = b;
    let mut next: usize = from;
    assert(buf@.subrange(b as int, b as int) =~= seq![]);
    while i < e
        invariant
            b <= write <= i <= e <= before.len(),
            buf@.len() == before.len(),
            next <= r_offs@.len(),
            ascending(r_offs@),
            forall|j: int| 0 <= j < next ==> r_offs@[j] < i,
            next < r_offs@.len() ==> r_offs@[next as int] >= i,
            buf@.subrange(b as int, write as int) == kept(before, b as int, i as int, r_offs@),
            forall|j: int| 0 <= j < b || i <= j < before.len() ==> buf@[j] == before[j],
        decreases e - i,
    {
        let ghost done = buf@.subrange(b as int, write as int);
        if next < r_offs.len() && r_offs[next] == i {
            assert(r_offs@.contains(i));
            next += 1;
        } else {
            assert(!r_offs@.contains(i)) by {
                if r_offs@.contains(i) {
                    let j = choose|j: int| 0 <= j < r_offs@.len() && r_offs@[j] == i;
                    if j > next {
                        assert(r_offs@[next as int] < r_offs@[j]);
                    }
                }
            }
            let byte: u8 = buf[i];
            buf[write] = byte;
            write += 1;
            assert(buf@.subrange(b as int, write as int) =~= done.push(byte));
        }
        i += 1;
    }
    write - b
}

/// The records that were assembled, and the accumulator's answer to them.
pub open spec fn assembly_returns<S, O: Output + ?Sized, A: Accumulator<S, O>>(
    before: Fold<S, O, A>,
    after: Fold<S, O, A>,
    records: Seq<Record>,
    r: Result<(), Error>,
) -> bool {
    match r {
        Ok(_) => after.wf() && after.log() == before.log() + records,
        Err(e) => exists|k: int|
            {
                &&& 0 <= k < records.len()
                &&& after.log() == before.log() + records.take(k)
                &&& #[trigger] refuses::<S, O, A>(
                    before.acc(),
                    before.init(),
                    before.log() + records.take(k),
                    records[k],
                    e,
                )
            },
    }
}

/// Emit `num_records` records of `n` fields by striding `b_offs`/`e_offs`,
/// applying R-removal inline. Validation is the verifier's job.
pub fn assemble_records_fixed<S, O: Output + ?Sized, A: Accumulator<S, O>>(
    buf: &mut [u8],
    n: usize,
    b_offs: &[usize],
    e_offs: &[usize],
    r_offs: &[usize],
    num_records: usize,
    fold: &mut Fold<S, O, A>,
) -> (r: Result<(), Error>)
    requires
        1 <= n <= 63,
        in_order(b_offs@, e_offs@, num_records * n, old(buf)@.len() as int),
        ascending(r_offs@),
        old(fold).wf(),
        old(buf)@.len() <= old(fold).bound(),
        forall|k: int|
            0 <= k < num_records ==> presentable::<O>(
                #[trigger] assembled(old(buf)@, n as int, b_offs@, e_offs@, r_offs@, k * n),
            ),
    ensures
        final(buf)@.len() == old(buf)@.len(),
        final(fold).acc() == old(fold).acc(),
        final(fold).init() == old(fold).init(),
        final(fold).bound() == old(fold).bound(),
        num_records > 0 ==> forall|i: int|
            e_offs@[num_records * n - 1] <= i < old(buf)@.len() ==> final(buf)@[i] == old(buf)@[i],
        num_records == 0 ==> final(buf)@ == old(buf)@,
        assembly_returns(
            *old(fold),
            *final(fold),
            Seq::new(
                num_records as nat,
                |k: int| assembled(old(buf)@, n as int, b_offs@, e_offs@, r_offs@, k * n),
            ),
            r,
        ),
{
    let whole_len: usize = buf.len();
    let ghost before = buf@;
    let ghost total = num_records * n;
    let ghost records = Seq::new(
        num_records as nat,
        |k: int| assembled(before, n as int, b_offs@, e_offs@, r_offs@, k * n),
    );
    let ghost log = fold.log();
    let mut r_cursor: usize = 0;
    let mut field_idx: usize = 0;
    let mut rec: usize = 0;
    let mut spans: Vec<(usize, usize)> = Vec::new();
    proof {
        assert(0 * n == 0) by (nonlinear_arith);
        assert(log + records.take(0) =~= log);
    }
    while rec < num_records
        invariant
            1 <= n <= 63,
            rec <= num_records,
            total == num_records * n,
            field_idx == rec * n,
            before == old(buf)@,
            buf@.len() == before.len() == whole_len,
            in_order(b_offs@, e_offs@, total, before.len() as int),
            ascending(r_offs@),
            r_cursor <= r_offs@.len(),
            rec < num_records ==> forall|i: int|
                0 <= i < r_cursor ==> #[trigger] r_offs@[i] < b_offs@[field_idx as int],
            rec == 0 ==> buf@ == before,
            rec > 0 ==> forall|i: int|
                e_offs@[field_idx - 1] <= i < before.len() ==> buf@[i] == before[i],
            records == Seq::new(
                num_records as nat,
                |k: int| assembled(before, n as int, b_offs@, e_offs@, r_offs@, k * n),
            ),
            forall|k: int|
                0 <= k < num_records ==> presentable::<O>(
                    #[trigger] assembled(before, n as int, b_offs@, e_offs@, r_offs@, k * n),
                ),
            fold.wf(),
            fold.acc() == old(fold).acc(),
            fold.init() == old(fold).init(),
            fold.bound() == old(fold).bound(),
            buf@.len() <= fold.bound(),
            log == old(fold).log(),
            fold.log() == log + records.take(rec as int),
        decreases num_records - rec,
    {
        let ghost first = field_idx as int;
        proof {
            assert(rec * n + n == (rec + 1) * n && (rec + 1) * n <= num_records * n)
                by (nonlinear_arith)
                requires
                    rec + 1 <= num_records,
                    n >= 1,
            ;
        }
        proof {
            if first > 0 {
                assert(e_offs@[first - 1] <= b_offs@[first]);
            }
            assert(rec > 0 ==> first > 0) by (nonlinear_arith)
                requires
                    first == rec * n,
                    n >= 1,
            ;
        }
        spans.clear();
        let mut j: usize = 0;
        assert(cut(buf@, spans@) =~= assembled(
            before,
            n as int,
            b_offs@,
            e_offs@,
            r_offs@,
            first,
        ).take(0));
        while j < n
            invariant
                1 <= n <= 63,
                j <= n,
                field_idx == first + j,
                first + n <= total,
                first == rec * n,
                buf@.len() == before.len() == whole_len,
                in_order(b_offs@, e_offs@, total, before.len() as int),
                ascending(r_offs@),
                r_cursor <= r_offs@.len(),
                field_idx < total ==> forall|i: int|
                    0 <= i < r_cursor ==> #[trigger] r_offs@[i] < b_offs@[field_idx as int],
                spans@.len() == j,
                forall|i: int|
                    field_idx < total && b_offs@[field_idx as int] <= i < before.len() ==> buf@[i]
                        == before[i],
                field_idx > 0 ==> forall|i: int|
                    e_offs@[field_idx - 1] <= i < before.len() ==> buf@[i] == before[i],
                forall|q: int|
                    0 <= q < j ==> (#[trigger] spans@[q]).0 + spans@[q].1 <= e_offs@[first + q],
                in_turn(spans@),
                spans_within(spans@, before.len() as int),
                cut(buf@, spans@) == assembled(
                    before,
                    n as int,
                    b_offs@,
                    e_offs@,
                    r_offs@,
                    first,
                ).take(j as int),
            decreases n - j,
        {
            let b: usize = b_offs[field_idx];
            let e: usize = e_offs[field_idx];
            while r_cursor < r_offs.len() && r_offs[r_cursor] < b
                invariant
                    r_cursor <= r_offs@.len(),
                    forall|i: int| 0 <= i < r_cursor ==> #[trigger] r_offs@[i] < b,
                decreases r_offs@.len() - r_cursor,
            {
                r_cursor += 1;
            }
            let ghost was = buf@;
            let ghost old_spans = spans@;
            // A field with no removals costs two loads and a subtract.
            let len: usize = if r_cursor >= r_offs.len() || r_offs[r_cursor] >= e {
                proof {
                    assert forall|i: int| b <= i < e implies !r_offs@.contains(
                        #[trigger] (i as usize),
                    ) by {
                        if r_offs@.contains(i as usize) {
                            let q = choose|q: int| 0 <= q < r_offs@.len() && r_offs@[q] == i as usize;
                            if q > r_cursor {
                                assert(r_offs@[r_cursor as int] < r_offs@[q]);
                            }
                        }
                    }
                    kept_all(was, b as int, e as int, r_offs@);
                }
                e - b
            } else {
                compact(buf, b, e, r_offs, r_cursor)
            };
            spans.push((b, len));
            proof {
                kept_same(before, was, b as int, e as int, r_offs@);
                let record = assembled(before, n as int, b_offs@, e_offs@, r_offs@, first);
                assert(record[j as int] == kept(
                    before,
                    b_offs@[first + j] as int,
                    e_offs@[first + j] as int,
                    r_offs@,
                ));
                assert forall|q: int| 0 <= q < j implies cut(buf@, spans@)[q] == cut(
                    was,
                    old_spans,
                )[q] by {
                    let (off, size) = old_spans[q];
                    assert(spans@[q] == old_spans[q]);
                    assert(off + size <= e_offs@[first + q]);
                    assert(e_offs@[first + q] <= b_offs@[first + j]);
                    assert(buf@.subrange(off as int, off + size) =~= was.subrange(
                        off as int,
                        off + size,
                    ));
                }
                assert(cut(buf@, spans@)[j as int] == buf@.subrange(b as int, b + len));
                assert(cut(buf@, spans@) =~= record.take(j + 1));
                if field_idx + 1 < total {
                    assert(e_offs@[field_idx as int] <= b_offs@[field_idx + 1]);
                    assert(b_offs@[field_idx as int] <= e_offs@[field_idx as int]);
                }
            }
            field_idx += 1;
            j += 1;
        }
        let ghost record = assembled(before, n as int, b_offs@, e_offs@, r_offs@, first);
        proof {
            assert(record.take(n as int) =~= record);
            assert(records[rec as int] == record);
            assert(presentable::<O>(assembled(before, n as int, b_offs@, e_offs@, r_offs@, rec * n)));
        }
        match fold.emit(buf, spans.as_slice()) {
            Ok(_) => {
                proof {
                    assert(records.take(rec + 1) =~= records.take(rec as int).push(record));
                    assert((log + records.take(rec as int)).push(record) =~= log + records.take(
                        rec + 1,
                    ));
                }
            },
            Err(e) => {
                proof {
                    assert(refuses::<S, O, A>(
                        old(fold).acc(),
                        old(fold).init(),
                        log + records.take(rec as int),
                        records[rec as int],
                        e,
                    ));
                    assert(e_offs@[field_idx - 1] <= e_offs@[total - 1]) by {
                        if field_idx < total {
                            assert(e_offs@[field_idx - 1] <= b_offs@[total - 1]);
                            assert(b_offs@[total - 1] <= e_offs@[total - 1]);
                        }
                    }
                }
                return Err(e);
            },
        }
        rec += 1;
        proof {
            if rec < num_records {
                assert(rec * n < num_records * n) by (nonlinear_arith)
                    requires
                        rec < num_records,
                        n >= 1,
                ;
            }
        }
    }
    assert(records.take(rec as int) =~= records);
    Ok(())
}

/// `base + j`, where the sum may run over the end of the number range.
pub open spec fn wrapped(base: usize, j: int) -> usize {
    if base + j <= usize::MAX {
        (base + j) as usize
    } else {
        (base + j - usize::MAX - 1) as usize
    }
}

/// The offsets of the set bits of `mask`, shifted by `base`.
pub open spec fn bit_offsets(mask: u64, base: usize) -> Seq<usize> {
    spots(|j: int| bit(mask, j), 0, 64).map_values(|j: int| wrapped(base, j))
}

/// Append the offset of every set bit in `mask` to `out`, shifted by
/// `base` and sorted ascending.
pub fn extend_offsets(out: &mut Vec<usize>, mask: u64, base: usize)
    ensures
        final(out)@ == old(out)@ + bit_offsets(mask, base),
{
    let ghost test = |j: int| bit(mask, j);
    let ghost before = out@;
    let mut m: u64 = mask;
    let ghost mut at: int = 0;
    proof {
        assert(spots(test, 0, 0).map_values(|j: int| wrapped(base, j)) =~= seq![]);
        assert(before + seq![] =~= before);
    }
    while m != 0
        invariant
            0 <= at <= 64,
            test == (|j: int| bit(mask, j)),
            forall|k: int| 0 <= k < 64 ==> #[trigger] bit(m, k) == (bit(mask, k) && k >= at),
            out@ == before + spots(test, 0, at).map_values(|j: int| wrapped(base, j)),
        decreases 64 - at,
    {
        proof {
            bits_lowest(m);
        }
        // `wrapping_add`: the base may be a wrapped negative one whose low
        // lanes are pad, so every offset is non-negative.
        let t: u32 = m.trailing_zeros();
        out.push(base.wrapping_add(t as usize));
        proof {
            assert forall|k: int| at <= k < t implies !#[trigger] test(k) by {
                assert(!bit(m, k));
            }
            spots_gap(test, at, t as int);
            let f = |j: int| wrapped(base, j);
            let was = spots(test, 0, at);
            let now = spots(test, 0, t as int + 1);
            assert(now == was.push(t as int)) by {
                assert(test(t as int));
            }
            assert(now.map_values(f) =~= was.map_values(f).push(wrapped(base, t as int)));
            assert(out@ =~= before + now.map_values(f));
            at = t as int + 1;
        }
        m = m & (m - 1);
    }
    proof {
        assert forall|k: int| at <= k < 64 implies !#[trigger] test(k) by {
            bits_of_one(0, k);
            assert(!bit(m, k));
        }
        spots_gap(test, at, 64);
    }
}

/// Where nothing has the property, no spots are added.
proof fn spots_gap(test: spec_fn(int) -> bool, a: int, b: int)
    requires
        0 <= a <= b,
        forall|k: int| a <= k < b ==> !#[trigger] test(k),
    ensures
        spots(test, 0, b) == spots(test, 0, a),
    decreases b - a,
{
    if a < b {
        spots_gap(test, a, b - 1);
        assert(!test(b - 1));
    }
}

/// Lower the offsets by `n`.
pub fn shift_down(offs: &mut Vec<usize>, n: usize)
    requires
        forall|i: int| 0 <= i < old(offs)@.len() ==> #[trigger] old(offs)@[i] >= n,
    ensures
        final(offs)@ == old(offs)@.map_values(|o: usize| (o - n) as usize),
{
    let ghost before = offs@;
    let mut i: usize = 0;
    while i < offs.len()
        invariant
            i <= offs@.len(),
            offs@.len() == before.len(),
            forall|j: int| 0 <= j < before.len() ==> #[trigger] before[j] >= n,
            forall|j: int| 0 <= j < i ==> #[trigger] offs@[j] == before[j] - n,
            forall|j: int| i <= j < before.len() ==> #[trigger] offs@[j] == before[j],
        decreases offs@.len() - i,
    {
        assert(before[i as int] >= n);
        let o: usize = offs[i];
        offs.set(i, o - n);
        i += 1;
    }
    assert(offs@ =~= before.map_values(|o: usize| (o - n) as usize));
}

} // verus!
