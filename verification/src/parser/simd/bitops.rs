//! Words as sets of positions, and bit operations like pext and pdep.

use vstd::prelude::*;
use vstd::std_specs::bits::{axiom_u64_trailing_zeros, u64_trailing_zeros};

verus! {

/// Bit `k` of `m`, counted from the low end.
pub open spec fn bit64(m: u64, k: u64) -> bool {
    (m >> k) & 1 == 1
}

/// Bit `k` of `m`; positions outside the word hold no bit.
pub open spec fn bit(m: u64, k: int) -> bool {
    0 <= k < 64 && bit64(m, k as u64)
}

/// The bits of combined words.
pub proof fn bits_combine(a: u64, b: u64, k: int)
    requires
        0 <= k < 64,
    ensures
        bit(a & b, k) == (bit(a, k) && bit(b, k)),
        bit(a | b, k) == (bit(a, k) || bit(b, k)),
        bit(a ^ b, k) == (bit(a, k) != bit(b, k)),
        bit(!a, k) == !bit(a, k),
{
    let j = k as u64;
    assert((((a & b) >> j) & 1 == 1) == (((a >> j) & 1 == 1) && ((b >> j) & 1 == 1)) && ((((a | b)
        >> j) & 1 == 1) == (((a >> j) & 1 == 1) || ((b >> j) & 1 == 1))) && ((((a ^ b) >> j) & 1
        == 1) == (((a >> j) & 1 == 1) != ((b >> j) & 1 == 1))) && ((((!a) >> j) & 1 == 1) == !((a
        >> j) & 1 == 1))) by (bit_vector)
        requires
            j < 64,
    ;
}

/// The bits of a word moved by one.
pub proof fn bits_move(a: u64, k: int)
    requires
        0 <= k < 64,
    ensures
        bit(a << 1, k) == bit(a, k - 1),
        bit(a >> 1, k) == bit(a, k + 1),
{
    let j = k as u64;
    assert((j > 0 ==> (((a << 1) >> j) & 1 == 1) == ((a >> ((j - 1) as u64)) & 1 == 1)) && (j == 0
        ==> ((a << 1) >> j) & 1 == 0) && (j < 63 ==> (((a >> 1) >> j) & 1 == 1) == ((a >> ((j
        + 1) as u64)) & 1 == 1)) && (j == 63 ==> ((a >> 1) >> j) & 1 == 0)) by (bit_vector)
        requires
            j < 64,
    ;
}

/// Words with one bit, and with none or all.
pub proof fn bits_of_one(p: int, k: int)
    requires
        0 <= p < 64,
        0 <= k < 64,
    ensures
        bit(1u64 << (p as u64), k) == (k == p),
        !bit(0, k),
        bit(!0u64, k),
{
    let i = p as u64;
    let j = k as u64;
    assert(((((1u64 << i) >> j) & 1 == 1) == (i == j)) && ((0u64 >> j) & 1 == 0) && (((!0u64) >> j)
        & 1 == 1)) by (bit_vector)
        requires
            i < 64,
            j < 64,
    ;
}

/// The lowest bit of a word, and the word without it.
pub proof fn bits_lowest(m: u64)
    requires
        m != 0,
    ensures
        0 <= u64_trailing_zeros(m) < 64,
        bit(m, u64_trailing_zeros(m) as int),
        forall|k: int| 0 <= k < u64_trailing_zeros(m) ==> !#[trigger] bit(m, k),
        forall|k: int|
            0 <= k < 64 ==> #[trigger] bit(m & ((m - 1) as u64), k) == (bit(m, k) && k
                != u64_trailing_zeros(m)),
{
    axiom_u64_trailing_zeros(m);
    let t = u64_trailing_zeros(m) as u64;
    assert forall|k: int| 0 <= k < t implies !#[trigger] bit(m, k) by {
        let j = k as u64;
        assert((m >> j) & 1u64 == 0u64);
    }
    assert forall|k: int| 0 <= k < 64 implies #[trigger] bit(m & ((m - 1) as u64), k) == (bit(m, k)
        && k != t) by {
        let j = k as u64;
        assert((((m & ((m - 1) as u64)) >> j) & 1 == 1) == (((m >> j) & 1 == 1) && j != t))
            by (bit_vector)
            requires
                j < 64,
                t < 64,
                m != 0,
                (m >> t) & 1 == 1,
                m << ((64 - t) as u64) == 0,
        ;
    }
}

/// How many bits of `m` are set below position `n`.
pub open spec fn ones(m: u64, n: int) -> nat
    decreases n,
{
    if n <= 0 {
        0
    } else {
        ones(m, n - 1) + if bit(m, n - 1) {
            1nat
        } else {
            0nat
        }
    }
}

/// There are at most as many bits as positions, and the more the further.
pub proof fn ones_bounds(m: u64, i: int, n: int)
    requires
        0 <= i <= n,
    ensures
        ones(m, i) <= ones(m, n) <= ones(m, i) + (n - i),
        ones(m, n) <= n,
    decreases n,
{
    if n > 0 {
        ones_bounds(m, 0, n - 1);
        if i < n {
            ones_bounds(m, i, n - 1);
        }
    }
}

/// Without bits below, nothing is counted.
pub proof fn ones_none(m: u64, n: int)
    requires
        0 <= n,
        forall|k: int| 0 <= k < n ==> !#[trigger] bit(m, k),
    ensures
        ones(m, n) == 0,
    decreases n,
{
    if n > 0 {
        ones_none(m, n - 1);
    }
}

/// The counts of words that agree below a position agree there.
pub proof fn ones_same(a: u64, b: u64, n: int)
    requires
        forall|k: int| 0 <= k < n ==> #[trigger] bit(a, k) == bit(b, k),
    ensures
        ones(a, n) == ones(b, n),
    decreases n,
{
    if n > 0 {
        ones_same(a, b, n - 1);
    }
}

/// Taking the lowest bit away leaves one less from there on.
pub proof fn ones_without_lowest(m: u64, n: int)
    requires
        m != 0,
        0 <= n <= 64,
    ensures
        ones(m & ((m - 1) as u64), n) == (if n > u64_trailing_zeros(m) {
            ones(m, n) - 1
        } else {
            0
        }),
        n > u64_trailing_zeros(m) ==> ones(m, n) >= 1,
        n <= u64_trailing_zeros(m) ==> ones(m, n) == 0,
    decreases n,
{
    bits_lowest(m);
    if n > 0 {
        ones_without_lowest(m, n - 1);
    }
}

/// The bits of `src` at the positions of `mask`, gathered at the low end.
pub open spec fn gathered(r: u64, src: u64, mask: u64) -> bool {
    &&& forall|k: int|
        0 <= k < 64 && bit(mask, k) ==> bit(r, ones(mask, k) as int) == #[trigger] bit(src, k)
    &&& forall|i: int| ones(mask, 64) <= i < 64 ==> !#[trigger] bit(r, i)
}

/// The low bits of `src`, spread out over the positions of `mask`.
pub open spec fn scattered(r: u64, src: u64, mask: u64) -> bool {
    forall|k: int|
        0 <= k < 64 ==> #[trigger] bit(r, k) == (bit(mask, k) && bit(src, ones(mask, k) as int))
}

/// How many bits are set.
pub fn count_ones(mask: u64) -> (r: u32)
    ensures
        r == ones(mask, 64),
        r <= 64,
{
    let mut m: u64 = mask;
    let mut n: u32 = 0;
    proof {
        ones_bounds(mask, 0, 64);
    }
    while m != 0
        invariant
            n + ones(m, 64) == ones(mask, 64),
            ones(mask, 64) <= 64,
        decreases ones(m, 64),
    {
        proof {
            bits_lowest(m);
            ones_without_lowest(m, 64);
        }
        m = m & (m - 1);
        n += 1;
    }
    proof {
        ones_none_zero();
    }
    n
}

/// The empty word holds nothing.
proof fn ones_none_zero()
    ensures
        ones(0, 64) == 0,
{
    assert forall|k: int| 0 <= k < 64 implies !#[trigger] bit(0, k) by {
        bits_of_one(0, k);
    }
    ones_none(0, 64);
}

/// What is left of `mask` while its bits are taken away from the low end: the
/// bits from position `from` on, `done` of them being gone.
spec fn rest_of(m: u64, mask: u64, done: int) -> bool {
    &&& forall|k: int|
        0 <= k < 64 ==> #[trigger] bit(m, k) == (bit(mask, k) && ones(mask, k) >= done)
    &&& done + ones(m, 64) == ones(mask, 64)
}

/// The lowest bit left is the next one in order.
proof fn rest_of_next(m: u64, mask: u64, done: int)
    requires
        m != 0,
        0 <= done,
        rest_of(m, mask, done),
    ensures
        ({
            let t = u64_trailing_zeros(m) as int;
            &&& 0 <= t < 64
            &&& bit(mask, t)
            &&& ones(mask, t) == done
            &&& done < ones(mask, 64) <= 64
            &&& rest_of(m & ((m - 1) as u64), mask, done + 1)
            &&& forall|k: int| 0 <= k < 64 && bit(mask, k) && ones(mask, k) == done ==> k == t
        }),
{
    bits_lowest(m);
    ones_without_lowest(m, 64);
    ones_bounds(mask, 0, 64);
    let t = u64_trailing_zeros(m) as int;
    let n = m & ((m - 1) as u64);
    // below `t` only bits that are done
    below_is_done(m, mask, done, t);
    ones_bounds(mask, t + 1, 64);
    assert forall|k: int| 0 <= k < 64 implies #[trigger] bit(n, k) == (bit(mask, k) && ones(mask, k)
        >= done + 1) by {
        if k > t {
            ones_bounds(mask, t + 1, k);
        } else if k < t {
            ones_bounds(mask, k + 1, t);
        }
    }
    assert forall|k: int| 0 <= k < 64 && bit(mask, k) && ones(mask, k) == done implies k == t by {
        if k > t {
            ones_bounds(mask, t + 1, k);
        } else if k < t {
            assert(!bit(m, k));
        }
    }
}

/// Below the lowest bit left, `done` bits have gone at most.
proof fn below_is_done(m: u64, mask: u64, done: int, t: int)
    requires
        0 <= done,
        rest_of(m, mask, done),
        0 <= t < 64,
        bit(m, t),
        forall|k: int| 0 <= k < t ==> !#[trigger] bit(m, k),
    ensures
        ones(mask, t) == done,
{
    below_at_most(m, mask, done, t);
}

/// While only bits that are done are passed, at most `done` are counted.
proof fn below_at_most(m: u64, mask: u64, done: int, n: int)
    requires
        0 <= done,
        rest_of(m, mask, done),
        0 <= n < 64,
        forall|k: int| 0 <= k < n ==> !#[trigger] bit(m, k),
    ensures
        ones(mask, n) <= done,
    decreases n,
{
    if n > 0 {
        below_at_most(m, mask, done, n - 1);
        assert(!bit(m, n - 1));
    }
}

/// Gather the bits of `src` at the positions of `mask` at the low end.
pub fn pext(src: u64, mask: u64) -> (r: u64)
    ensures
        gathered(r, src, mask),
{
    let mut result: u64 = 0;
    let mut out_pos: u32 = 0;
    let mut m: u64 = mask;
    proof {
        ones_bounds(mask, 0, 64);
        assert forall|i: int| 0 <= i < 64 implies !#[trigger] bit(0, i) by {
            bits_of_one(0, i);
        }
    }
    while m != 0
        invariant
            rest_of(m, mask, out_pos as int),
            out_pos <= ones(mask, 64) <= 64,
            forall|k: int|
                0 <= k < 64 && bit(mask, k) && ones(mask, k) < out_pos ==> bit(
                    result,
                    ones(mask, k) as int,
                ) == #[trigger] bit(src, k),
            forall|i: int| out_pos <= i < 64 ==> !#[trigger] bit(result, i),
        decreases ones(m, 64),
    {
        proof {
            rest_of_next(m, mask, out_pos as int);
            ones_without_lowest(m, 64);
        }
        let at: u32 = m.trailing_zeros();
        let here = (src >> (at as u64)) & 1 == 1;
        assert(here == bit(src, at as int));
        let ghost before = result;
        if here {
            result = result | (1u64 << (out_pos as u64));
        }
        proof {
            assert forall|i: int| 0 <= i < 64 implies #[trigger] bit(result, i) == (bit(before, i)
                || (here && i == out_pos)) by {
                bits_combine(before, 1u64 << (out_pos as u64), i);
                bits_of_one(out_pos as int, i);
            }
        }
        m = m & (m - 1);
        out_pos += 1;
    }
    proof {
        ones_none_zero();
        assert forall|k: int| 0 <= k < 64 && bit(mask, k) implies bit(result, ones(mask, k) as int)
            == #[trigger] bit(src, k) by {
            bits_of_one(0, k);
            assert(!bit(m, k));
        }
    }
    result
}

/// Spread the low bits of `src` out over the positions of `mask`.
pub fn pdep(src: u64, mask: u64) -> (r: u64)
    ensures
        scattered(r, src, mask),
{
    let mut result: u64 = 0;
    let mut in_pos: u32 = 0;
    let mut m: u64 = mask;
    proof {
        ones_bounds(mask, 0, 64);
        assert forall|i: int| 0 <= i < 64 implies !#[trigger] bit(0, i) by {
            bits_of_one(0, i);
        }
    }
    while m != 0
        invariant
            rest_of(m, mask, in_pos as int),
            in_pos <= ones(mask, 64) <= 64,
            forall|k: int|
                0 <= k < 64 ==> #[trigger] bit(result, k) == (bit(mask, k) && ones(mask, k) < in_pos
                    && bit(src, ones(mask, k) as int)),
        decreases ones(m, 64),
    {
        proof {
            rest_of_next(m, mask, in_pos as int);
            ones_without_lowest(m, 64);
        }
        let at: u32 = m.trailing_zeros();
        let here = (src >> (in_pos as u64)) & 1 == 1;
        assert(here == bit(src, in_pos as int));
        let ghost before = result;
        if here {
            result = result | (1u64 << (at as u64));
        }
        proof {
            assert forall|i: int| 0 <= i < 64 implies #[trigger] bit(result, i) == (bit(before, i)
                || (here && i == at)) by {
                bits_combine(before, 1u64 << (at as u64), i);
                bits_of_one(at as int, i);
            }
        }
        m = m & (m - 1);
        in_pos += 1;
    }
    assert forall|k: int| 0 <= k < 64 implies ones(mask, k) < in_pos || !bit(mask, k) by {
        bits_of_one(0, k);
        assert(!bit(m, k));
    }
    result
}

/// Gathering undoes spreading: of the bits that found a place, all come back.
pub proof fn pext_undoes_pdep(src: u64, mask: u64, spread: u64, back: u64)
    requires
        scattered(spread, src, mask),
        gathered(back, spread, mask),
    ensures
        forall|k: int|
            0 <= k < 64 && bit(mask, k) ==> bit(back, ones(mask, k) as int) == bit(
                src,
                #[trigger] ones(mask, k) as int,
            ),
{
    assert forall|k: int| 0 <= k < 64 && bit(mask, k) implies bit(back, ones(mask, k) as int)
        == bit(src, #[trigger] ones(mask, k) as int) by {
        assert(bit(spread, k) == bit(src, ones(mask, k) as int));
    }
}

} // verus!
