//! Bitmask construction: 64-byte input → u64 structural bitmasks, bit
//! `i` per byte `i`. See [`super::scan`] for how the outputs become B/E/R
//! indices.

use vstd::prelude::*;

use super::bitops::{bit, bits_combine, bits_move, bits_of_one};
use crate::config::is_term;

verus! {

/// Vector width in bytes — one cacheline.
pub const VECTOR_BYTES: usize = 64;

/// Per-vector structural-character bitmasks; bit `i` is byte `i` of the
/// input vector. The byte values must be distinct (`Config::validate`).
#[derive(Debug, Clone, Copy, PartialEq, Eq, Structural)]
pub struct StructuralMasks {
    /// `C` — field delimiters.
    pub delim: u64,
    /// `N` — record terminators, both bytes' matches for CRLF dialects.
    pub term: u64,
    /// `Q` — quote characters. `0` when quoting is disabled.
    pub quote: u64,
}

impl StructuralMasks {
    /// `D` — delimiters or terminators (mask of all field-boundary chars).
    pub fn delim_or_term(&self) -> (r: u64)
        ensures
            r == self.delim | self.term,
            forall|k: int| 0 <= k < 64 ==> #[trigger] bit(r, k) == (bit(self.delim, k) || bit(
                self.term,
                k,
            )),
    {
        proof {
            assert forall|k: int| 0 <= k < 64 implies #[trigger] bit(self.delim | self.term, k) == (
            bit(self.delim, k) || bit(self.term, k)) by {
                bits_combine(self.delim, self.term, k);
            }
        }
        self.delim | self.term
    }

    /// `D_struct = (C | N) & !M` — delimiters/terminators outside quotes.
    pub fn structural_delims(&self, m: u64) -> (r: u64)
        ensures
            r == (self.delim | self.term) & !m,
            forall|k: int| 0 <= k < 64 ==> #[trigger] bit(r, k) == ((bit(self.delim, k) || bit(
                self.term,
                k,
            )) && !bit(m, k)),
    {
        let d: u64 = self.delim_or_term();
        proof {
            assert forall|k: int| 0 <= k < 64 implies #[trigger] bit(d & !m, k) == ((bit(
                self.delim,
                k,
            ) || bit(self.term, k)) && !bit(m, k)) by {
                bits_combine(d, !m, k);
                bits_combine(m, m, k);
            }
        }
        d & !m
    }
}

/// Whether `c` is the quote byte.
pub fn is_quote(c: u8, quote: Option<u8>) -> (r: bool)
    ensures
        r == (quote == Some(c)),
{
    match quote {
        Some(q) => c == q,
        None => false,
    }
}

/// `s` marks the structural characters of `input`.
pub open spec fn marks(
    s: StructuralMasks,
    input: Seq<u8>,
    delim: u8,
    term: u8,
    term2: Option<u8>,
    quote: Option<u8>,
    n: int,
) -> bool {
    &&& forall|k: int|
        0 <= k < 64 ==> #[trigger] bit(s.delim, k) == (k < n && input[k] == delim)
    &&& forall|k: int|
        0 <= k < 64 ==> #[trigger] bit(s.term, k) == (k < n && (input[k] == term || term2 == Some(
            input[k],
        )))
    &&& forall|k: int|
        0 <= k < 64 ==> #[trigger] bit(s.quote, k) == (k < n && quote == Some(input[k]))
}

/// `word` with bit `at` set if `on`.
fn with_bit(word: u64, at: usize, on: bool) -> (r: u64)
    requires
        at < 64,
    ensures
        forall|k: int| 0 <= k < 64 ==> #[trigger] bit(r, k) == (bit(word, k) || (on && k == at)),
{
    if on {
        proof {
            assert forall|k: int| 0 <= k < 64 implies #[trigger] bit(word | (1u64 << (at as u64)), k)
                == (bit(word, k) || k == at) by {
                bits_combine(word, 1u64 << (at as u64), k);
                bits_of_one(at as int, k);
            }
        }
        word | (1u64 << (at as u64))
    } else {
        word
    }
}

/// Match structural characters in a 64-byte vector, yielding the
/// `(C, N, Q)` masks (`Q = 0` without quoting). `term2` — the `\r` of a
/// CRLF dialect — folds into `term`.
pub fn match_structural(
    input: &[u8; 64],
    delim: u8,
    term: u8,
    term2: Option<u8>,
    quote: Option<u8>,
) -> (r: StructuralMasks)
    ensures
        marks(r, input@, delim, term, term2, quote, 64),
{
    let mut s = StructuralMasks { delim: 0, term: 0, quote: 0 };
    let mut i: usize = 0;
    proof {
        assert forall|k: int| 0 <= k < 64 implies !#[trigger] bit(0, k) by {
            bits_of_one(0, k);
        }
    }
    while i < 64
        invariant
            i <= 64,
            marks(s, input@, delim, term, term2, quote, i as int),
        decreases 64 - i,
    {
        let b: u8 = input[i];
        s = StructuralMasks {
            delim: with_bit(s.delim, i, b == delim),
            term: with_bit(s.term, i, is_term(b, term, term2)),
            quote: with_bit(s.quote, i, is_quote(b, quote)),
        };
        i += 1;
    }
    s
}

/// Pick a byte that is neither delimiter, terminator nor quote, so that
/// padding a partial vector with it synthesizes no structural bits.
pub fn neutral_pad(delim: u8, term: u8, term2: Option<u8>, quote: Option<u8>) -> (r: u8)
    ensures
        r != delim,
        r != term,
        term2 != Some(r),
        quote != Some(r),
        forall|b: u8| b < r ==> b == delim || b == term || term2 == Some(b) || quote == Some(b),
{
    let mut candidate: u8 = 0;
    while candidate == delim || is_term(candidate, term, term2) || is_quote(candidate, quote)
        invariant
            candidate <= 4,
            forall|b: u8|
                b < candidate ==> b == delim || b == term || term2 == Some(b) || quote == Some(b),
        decreases 255 - candidate,
    {
        proof {
            // four bytes at most are taken
            let a = term2;
            let q = quote;
            if candidate == 4 {
                assert(0u8 == delim || 0u8 == term || a == Some(0u8) || q == Some(0u8));
                assert(1u8 == delim || 1u8 == term || a == Some(1u8) || q == Some(1u8));
                assert(2u8 == delim || 2u8 == term || a == Some(2u8) || q == Some(2u8));
                assert(3u8 == delim || 3u8 == term || a == Some(3u8) || q == Some(3u8));
            }
        }
        candidate += 1;
    }
    candidate
}

/// Why [`head_padded_prologue`] did or didn't build a vector; the two
/// declines differ, so the caller must not conflate them.
pub enum Prologue {
    /// Head-padded first vector, and the misalignment its pad absorbs.
    Vector([u8; 64], usize),
    /// Already 64-byte aligned; scan straight from byte 0.
    Aligned,
    /// Fewer than `skip + 64` bytes: no aligned vector follows yet.
    TooShort,
}

/// A vector of nothing but `b`.
fn filled(b: u8) -> (r: [u8; 64])
    ensures
        forall|i: int| 0 <= i < 64 ==> #[trigger] r@[i] == b,
{
    let r: [u8; 64] = [b; 64];
    proof {
        assert(r == vstd::array::spec_array_fill_for_copy_type::<u8, 64>(b));
    }
    r
}

/// The address that `<[u8]>::as_ptr` gives for the start of `buf`. Nothing is
/// stated of it: where the bytes lie in memory has no bearing on what they mean.
#[verifier::external_body]
fn address(buf: &[u8]) -> (r: usize) {
    buf.as_ptr() as usize
}

/// The prologue of a buffer that lies `misalign` bytes past a 64-byte boundary and
/// of which `scan_end` bytes can be scanned.
pub open spec fn prologue_is(
    r: Prologue,
    buf: Seq<u8>,
    misalign: int,
    scan_end: int,
    pad: u8,
) -> bool {
    match r {
        Prologue::Aligned => misalign == 0,
        Prologue::TooShort => misalign != 0 && scan_end < 128 - misalign,
        Prologue::Vector(v, m) => {
            &&& misalign != 0
            &&& scan_end >= 128 - misalign
            &&& m == misalign
            &&& v@ == Seq::new(misalign as nat, |i: int| pad) + buf.take(64 - misalign)
        },
    }
}

/// Build a head-padded first vector so every later load is 64-byte
/// aligned: `misalign` lanes of neutral pad put its virtual byte 0 at
/// `misalign` bytes before the buffer.
pub fn head_padded_prologue(buf: &[u8], scan_end: usize, pad: u8) -> (r: Prologue)
    requires
        scan_end <= buf@.len(),
    ensures
        exists|misalign: int|
            0 <= misalign < 64 && #[trigger] prologue_is(
                r,
                buf@,
                misalign,
                scan_end as int,
                pad,
            ),
{
    prologue_at(buf, address(buf) % VECTOR_BYTES, scan_end, pad)
}

/// [`head_padded_prologue`] of a buffer whose place in memory is known.
pub fn prologue_at(buf: &[u8], misalign: usize, scan_end: usize, pad: u8) -> (r: Prologue)
    requires
        misalign < 64,
        scan_end <= buf@.len(),
    ensures
        prologue_is(r, buf@, misalign as int, scan_end as int, pad),
{
    if misalign == 0 {
        return Prologue::Aligned;
    }
    let skip: usize = VECTOR_BYTES - misalign;
    if scan_end < skip + VECTOR_BYTES {
        return Prologue::TooShort;
    }
    let mut v: [u8; 64] = filled(pad);
    let mut i: usize = 0;
    while i < skip
        invariant
            i <= skip,
            skip == 64 - misalign,
            0 < misalign < 64,
            skip <= buf@.len(),
            forall|k: int| 0 <= k < misalign ==> v@[k] == pad,
            forall|k: int| misalign <= k < misalign + i ==> v@[k] == buf@[k - misalign],
        decreases skip - i,
    {
        v[misalign + i] = buf[i];
        i += 1;
    }
    assert(v@ =~= Seq::new(misalign as nat, |i: int| pad) + buf@.take(64 - misalign));
    Prologue::Vector(v, misalign)
}

/// A bit at the low end, if `on`.
fn low_bit(on: bool) -> (r: u64)
    ensures
        forall|k: int| 0 <= k < 64 ==> #[trigger] bit(r, k) == (on && k == 0),
{
    proof {
        assert(1u64 << 0u64 == 1u64) by (bit_vector);
        assert forall|k: int| 0 <= k < 64 implies #[trigger] bit(1, k) == (k == 0) by {
            bits_of_one(0, k);
        }
        assert forall|k: int| 0 <= k < 64 implies !#[trigger] bit(0, k) by {
            bits_of_one(0, k);
        }
    }
    if on {
        1
    } else {
        0
    }
}

/// A bit at the high end, if `on`.
fn high_bit(on: bool) -> (r: u64)
    ensures
        forall|k: int| 0 <= k < 64 ==> #[trigger] bit(r, k) == (on && k == 63),
{
    proof {
        assert(1u64 << 63u64 == 0x8000_0000_0000_0000u64) by (bit_vector);
        assert forall|k: int| 0 <= k < 64 implies #[trigger] bit(0x8000_0000_0000_0000, k) == (k
            == 63) by {
            bits_of_one(63, k);
        }
        assert forall|k: int| 0 <= k < 64 implies !#[trigger] bit(0, k) by {
            bits_of_one(63, k);
        }
    }
    if on {
        0x8000_0000_0000_0000
    } else {
        0
    }
}

/// The bits of `word` one position on, with `first` coming in at the low end.
pub fn pushed_up(word: u64, first: bool) -> (r: u64)
    ensures
        forall|k: int|
            0 <= k < 64 ==> #[trigger] bit(r, k) == (if k == 0 {
                first
            } else {
                bit(word, k - 1)
            }),
{
    let low: u64 = low_bit(first);
    proof {
        assert forall|k: int| 0 <= k < 64 implies #[trigger] bit((word << 1) | low, k) == (if k
            == 0 {
            first
        } else {
            bit(word, k - 1)
        }) by {
            bits_combine(word << 1, low, k);
            bits_move(word, k);
        }
    }
    (word << 1) | low
}

/// The bits of `word` one position back, with `last` coming in at the high end.
pub fn pulled_down(word: u64, last: bool) -> (r: u64)
    ensures
        forall|k: int|
            0 <= k < 64 ==> #[trigger] bit(r, k) == (if k == 63 {
                last
            } else {
                bit(word, k + 1)
            }),
{
    let high: u64 = high_bit(last);
    proof {
        assert forall|k: int| 0 <= k < 64 implies #[trigger] bit((word >> 1) | high, k) == (if k
            == 63 {
            last
        } else {
            bit(word, k + 1)
        }) by {
            bits_combine(word >> 1, high, k);
            bits_move(word, k);
        }
    }
    (word >> 1) | high
}

/// The bits of `a` that `b` has not.
pub fn without(a: u64, b: u64) -> (r: u64)
    ensures
        forall|k: int| 0 <= k < 64 ==> #[trigger] bit(r, k) == (bit(a, k) && !bit(b, k)),
{
    proof {
        assert forall|k: int| 0 <= k < 64 implies #[trigger] bit(a & !b, k) == (bit(a, k) && !bit(
            b,
            k,
        )) by {
            bits_combine(a, !b, k);
            bits_combine(b, b, k);
        }
    }
    a & !b
}

/// The bits that `a` and `b` share.
pub fn both(a: u64, b: u64) -> (r: u64)
    ensures
        forall|k: int| 0 <= k < 64 ==> #[trigger] bit(r, k) == (bit(a, k) && bit(b, k)),
{
    proof {
        assert forall|k: int| 0 <= k < 64 implies #[trigger] bit(a & b, k) == (bit(a, k) && bit(
            b,
            k,
        )) by {
            bits_combine(a, b, k);
        }
    }
    a & b
}

/// The bits that `a` or `b` has.
pub fn either(a: u64, b: u64) -> (r: u64)
    ensures
        forall|k: int| 0 <= k < 64 ==> #[trigger] bit(r, k) == (bit(a, k) || bit(b, k)),
{
    proof {
        assert forall|k: int| 0 <= k < 64 implies #[trigger] bit(a | b, k) == (bit(a, k) || bit(
            b,
            k,
        )) by {
            bits_combine(a, b, k);
        }
    }
    a | b
}

/// Whether bit `at` of `word` is set.
pub fn test_bit(word: u64, at: u32) -> (r: bool)
    requires
        at < 64,
    ensures
        r == bit(word, at as int),
{
    (word >> (at as u64)) & 1 == 1
}

/// First terminator byte of each maximal run in the out-of-quotes mask
/// `t` — where the preceding field ends. `prev_is_term` is bit 63 of the
/// previous vector's `t`, so a straddling run isn't split.
pub fn terminator_run_starts(t: u64, prev_is_term: bool) -> (r: u64)
    ensures
        forall|k: int|
            0 <= k < 64 ==> #[trigger] bit(r, k) == (bit(t, k) && !(if k == 0 {
                prev_is_term
            } else {
                bit(t, k - 1)
            })),
{
    without(t, pushed_up(t, prev_is_term))
}

/// Last terminator byte of each maximal run — the next record begins one
/// past these. `next_term_lsb` is bit 0 of the next vector's `t`.
pub fn terminator_run_ends(t: u64, next_term_lsb: bool) -> (r: u64)
    ensures
        forall|k: int|
            0 <= k < 64 ==> #[trigger] bit(r, k) == (bit(t, k) && !(if k == 63 {
                next_term_lsb
            } else {
                bit(t, k + 1)
            })),
{
    without(t, pulled_down(t, next_term_lsb))
}

/// Whether the number of bits of `q` at positions up to `k` is odd.
pub open spec fn odd_up_to(q: u64, k: int) -> bool
    decreases k + 1,
{
    if k < 0 {
        false
    } else {
        odd_up_to(q, k - 1) != bit(q, k)
    }
}

/// A word whose difference with itself moved by one is `q` sums `q` up.
proof fn prefix_sum_bits(r: u64, q: u64, k: int)
    requires
        r ^ (r << 1) == q,
        0 <= k < 64,
    ensures
        bit(r, k) == odd_up_to(q, k),
    decreases k,
{
    bits_combine(r, r << 1, k);
    bits_move(r, k);
    if k > 0 {
        prefix_sum_bits(r, q, k - 1);
    } else {
        assert(!odd_up_to(q, -1));
    }
}

/// XOR prefix sum of `q`: bit `i` is the XOR of input bits `0..=i`. Six
/// doubling steps cover all 64 bits.
pub fn xor_prefix_sum(q: u64) -> (r: u64)
    ensures
        r ^ (r << 1) == q,
        forall|k: int| 0 <= k < 64 ==> #[trigger] bit(r, k) == odd_up_to(q, k),
{
    let a: u64 = q ^ (q << 1);
    let b: u64 = a ^ (a << 2);
    let c: u64 = b ^ (b << 4);
    let d: u64 = c ^ (c << 8);
    let e: u64 = d ^ (d << 16);
    let r: u64 = e ^ (e << 32);
    proof {
        assert(r ^ (r << 1) == q) by (bit_vector)
            requires
                a == q ^ (q << 1),
                b == a ^ (a << 2),
                c == b ^ (b << 4),
                d == c ^ (c << 8),
                e == d ^ (d << 16),
                r == e ^ (e << 32),
        ;
        assert forall|k: int| 0 <= k < 64 implies #[trigger] bit(r, k) == odd_up_to(q, k) by {
            prefix_sum_bits(r, q, k);
        }
    }
    r
}

/// Without quotes, nothing is summed up.
proof fn odd_of_zero(k: int)
    requires
        k < 64,
    ensures
        !odd_up_to(0, k),
    decreases k + 1,
{
    if k >= 0 {
        bits_of_one(0, k);
        odd_of_zero(k - 1);
    }
}

/// Compute the in-quotes bitmask `M`, the XOR prefix sum of `Q`: set iff
/// the byte is inside a quoted field, opener included, closer excluded.
/// `carry_in` / `carry_out` are the previous / this vector's `M`-MSB.
pub fn compute_in_quotes(quote: u64, carry_in: bool) -> (r: (u64, bool))
    ensures
        forall|k: int|
            0 <= k < 64 ==> #[trigger] bit(r.0, k) == (carry_in != odd_up_to(quote, k)),
        r.1 == bit(r.0, 63),
{
    let carry_mask: u64 = if carry_in {
        0xffff_ffff_ffff_ffff
    } else {
        0
    };
    proof {
        assert(0xffff_ffff_ffff_ffffu64 == !0u64) by (bit_vector);
        assert forall|k: int| 0 <= k < 64 implies #[trigger] bit(carry_mask, k) == carry_in by {
            bits_of_one(0, k);
        }
    }
    // No quote bytes: `M` is the carry broadcast.
    if quote == 0 {
        proof {
            assert forall|k: int| 0 <= k < 64 implies #[trigger] bit(carry_mask, k) == (carry_in
                != odd_up_to(quote, k)) by {
                odd_of_zero(k);
            }
        }
        return (carry_mask, carry_in);
    }
    let prefix: u64 = xor_prefix_sum(quote);
    let m: u64 = prefix ^ carry_mask;
    proof {
        assert forall|k: int| 0 <= k < 64 implies #[trigger] bit(m, k) == (carry_in != odd_up_to(
            quote,
            k,
        )) by {
            bits_combine(prefix, carry_mask, k);
        }
    }
    let carry_out = test_bit(m, 63);
    (m, carry_out)
}

/// Forward carry into the next vector's `B` mask. Two channels because
/// `B` is built in two stages: `d_struct_msb` feeds `B_init[0]` (still
/// subject to the quote-promotion shift), `qb_msb` feeds `B_final[0]`.
#[derive(Debug, Clone, Copy, PartialEq, Eq, Structural)]
pub struct BeginsCarry {
    /// `D_struct[63]`, feeding `B_init[0]` of the next vector.
    pub d_struct_msb: bool,
    /// `QB[63]`, feeding `B_final[0]` of the next vector.
    pub qb_msb: bool,
}

impl Default for BeginsCarry {
    fn default() -> (r: Self)
        ensures
            !r.d_struct_msb,
            !r.qb_msb,
    {
        BeginsCarry { d_struct_msb: false, qb_msb: false }
    }
}

/// A field is opened before byte `k`: a boundary stands there.
pub open spec fn opened(d_struct: u64, carry: BeginsCarry, k: int) -> bool {
    if k == 0 {
        carry.d_struct_msb
    } else {
        bit(d_struct, k - 1)
    }
}

/// Compute the field-beginnings bitmask `B` — each field's first content
/// byte — from `B_init = D_struct << 1` and `QB = B_init & Q` as
/// `(B_init & !QB) | (QB << 1)`, plus carries. `B[0]` is the prologue's.
pub fn compute_field_begins(d_struct: u64, quote: u64, carry_in: BeginsCarry) -> (r: (
    u64,
    BeginsCarry,
))
    ensures
        forall|k: int|
            0 <= k < 64 ==> #[trigger] bit(r.0, k) == ((opened(d_struct, carry_in, k) && !bit(
                quote,
                k,
            )) || (if k == 0 {
                carry_in.qb_msb
            } else {
                opened(d_struct, carry_in, k - 1) && bit(quote, k - 1)
            })),
        r.1.d_struct_msb == bit(d_struct, 63),
        r.1.qb_msb == (opened(d_struct, carry_in, 63) && bit(quote, 63)),
{
    let b_init: u64 = pushed_up(d_struct, carry_in.d_struct_msb);
    let qb: u64 = both(b_init, quote);
    let b_final: u64 = either(without(b_init, qb), pushed_up(qb, carry_in.qb_msb));
    let carry_out = BeginsCarry {
        d_struct_msb: test_bit(d_struct, 63),
        qb_msb: test_bit(qb, 63),
    };
    (b_final, carry_out)
}

/// A closing quote before a boundary: the field ends on it.
pub open spec fn closes(d_struct: u64, quote: u64, m: u64, next: bool, k: int) -> bool {
    bit(quote, k) && !bit(m, k) && (if k == 63 {
        next
    } else {
        bit(d_struct, k + 1)
    })
}

/// Compute the field-ends bitmask `E` — one past each field's last
/// content byte — as `D_struct` with a closing quote pulled back over the
/// delim after it. The neighbour bits are `false` at a chunk edge.
pub fn compute_field_ends(
    d_struct: u64,
    quote: u64,
    m: u64,
    next_d_struct_lsb: bool,
    prev_qe_msb: bool,
) -> (r: (u64, bool))
    ensures
        forall|k: int|
            0 <= k < 64 ==> #[trigger] bit(r.0, k) == ((bit(d_struct, k) && !(if k == 0 {
                prev_qe_msb
            } else {
                closes(d_struct, quote, m, next_d_struct_lsb, k - 1)
            })) || closes(d_struct, quote, m, next_d_struct_lsb, k)),
        r.1 == closes(d_struct, quote, m, next_d_struct_lsb, 63),
{
    let qr: u64 = without(quote, m);
    let d_struct_lookahead: u64 = pulled_down(d_struct, next_d_struct_lsb);
    let qe: u64 = both(qr, d_struct_lookahead);
    let qe_clear: u64 = pushed_up(qe, prev_qe_msb);
    let e: u64 = either(without(d_struct, qe_clear), qe);
    proof {
        assert forall|k: int| 0 <= k < 64 implies #[trigger] bit(qe, k) == closes(
            d_struct,
            quote,
            m,
            next_d_struct_lsb,
            k,
        ) by {}
        assert forall|k: int| 0 <= k < 64 implies #[trigger] bit(e, k) == ((bit(d_struct, k) && !(
        if k == 0 {
            prev_qe_msb
        } else {
            closes(d_struct, quote, m, next_d_struct_lsb, k - 1)
        })) || closes(d_struct, quote, m, next_d_struct_lsb, k)) by {
            assert(bit(qe_clear, k) == (if k == 0 {
                prev_qe_msb
            } else {
                bit(qe, k - 1)
            }));
        }
    }
    let qe_msb = test_bit(qe, 63);
    (e, qe_msb)
}

/// Compute the chars-to-remove bitmask `R`: every quote elided from field
/// content, keeping those `B`/`E` already account for and, under
/// `doubled_quotes`, the first half of a `""` pair.
pub fn compute_chars_to_remove(
    quote: u64,
    m: u64,
    b: u64,
    e: u64,
    next_b_lsb: bool,
    next_q_lsb: bool,
    doubled_quotes: bool,
) -> (r: u64)
    ensures
        forall|k: int|
            0 <= k < 64 ==> #[trigger] bit(r, k) == ((bit(quote, k) && bit(m, k) && !(if k == 63 {
                next_b_lsb
            } else {
                bit(b, k + 1)
            })) || (bit(quote, k) && !bit(m, k) && !bit(e, k) && !(doubled_quotes && (if k == 63 {
                next_q_lsb
            } else {
                bit(quote, k + 1)
            })))),
{
    let ql: u64 = both(quote, m);
    let qr: u64 = without(quote, m);
    let b_lookahead: u64 = pulled_down(b, next_b_lsb);
    let ql_remove: u64 = without(ql, b_lookahead);
    let qr_remove: u64 = if doubled_quotes {
        let q_lookahead: u64 = pulled_down(quote, next_q_lsb);
        without(without(qr, q_lookahead), e)
    } else {
        without(qr, e)
    };
    either(ql_remove, qr_remove)
}

/// The bits below `n`.
pub fn below(n: usize) -> (r: u64)
    requires
        n <= 64,
    ensures
        forall|i: int| 0 <= i < 64 ==> #[trigger] bit(r, i) == (i < n),
{
    let mut r: u64 = 0;
    let mut j: usize = 0;
    proof {
        assert forall|i: int| 0 <= i < 64 implies !#[trigger] bit(0, i) by {
            bits_of_one(0, i);
        }
    }
    while j < n
        invariant
            j <= n <= 64,
            forall|i: int| 0 <= i < 64 ==> #[trigger] bit(r, i) == (i < j),
        decreases n - j,
    {
        r = pushed_up(r, true);
        j += 1;
    }
    r
}

/// The first `avail` bytes of `buf`, filled up with `pad`.
pub fn padded_vector(buf: &[u8], avail: usize, pad: u8) -> (r: [u8; 64])
    requires
        avail <= 64,
        avail <= buf@.len(),
    ensures
        r@ == buf@.take(avail as int) + Seq::new((64 - avail) as nat, |i: int| pad),
{
    let mut v: [u8; 64] = filled(pad);
    let mut i: usize = 0;
    while i < avail
        invariant
            i <= avail <= 64,
            avail <= buf@.len(),
            forall|j: int| 0 <= j < i ==> v@[j] == buf@[j],
            forall|j: int| i <= j < 64 ==> v@[j] == pad,
        decreases avail - i,
    {
        v[i] = buf[i];
        i += 1;
    }
    assert(v@ =~= buf@.take(avail as int) + Seq::new((64 - avail) as nat, |i: int| pad));
    v
}

} // verus!
