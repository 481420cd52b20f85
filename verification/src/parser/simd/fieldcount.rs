//! Per-vector field-count verification: extract a boundary-class bitmask
//! `P` (0 delimiter, 1 terminator) and compare it against a pre-built
//! rotation table for the running phase.

use vstd::prelude::*;
use vstd::std_specs::bits::{axiom_u64_leading_zeros, u64_leading_zeros};

use super::bitmask::{below, is_quote};
use super::bitops::{bit, bits_combine, bits_of_one, count_ones, ones, ones_bounds, pext};
use super::fields::{bad_line, line_cuts, line_start, next_remainder, starts_before};
use super::masks::{inside, quote_at, term_at};
use super::scan::ScannerConfig;
use crate::config::is_term;

verus! {

/// `p` marks the boundaries that complete a record, counted from `phase`: bit
/// `i` is set iff the `i`-th boundary does.
pub open spec fn is_pattern(p: u64, n: int, phase: int) -> bool {
    forall|i: int| 0 <= i < 64 ==> #[trigger] bit(p, i) == ((i + phase) % n == n - 1)
}

/// Expected-`P` pattern for a vector starting at `phase` with `n` fields
/// per record: bit `i` is set iff `(i + phase) mod n == n - 1`, i.e. the
/// `i`-th boundary completes a record.
pub fn expected_pattern(n: u32, phase: u32) -> (r: u64)
    requires
        1 <= n,
        phase < n,
    ensures
        is_pattern(r, n as int, phase as int),
{
    let mut out: u64 = 0;
    let target: u64 = (n - 1) as u64;
    let mut i: u32 = 0;
    proof {
        assert forall|k: int| 0 <= k < 64 implies !#[trigger] bit(0, k) by {
            bits_of_one(0, k);
        }
    }
    while i < 64
        invariant
            i <= 64,
            1 <= n,
            phase < n,
            target == n - 1,
            forall|k: int|
                0 <= k < 64 ==> #[trigger] bit(out, k) == (k < i && (k + phase) % (n as int) == n
                    - 1),
        decreases 64 - i,
    {
        let ghost before = out;
        let here = (i as u64 + phase as u64) % (n as u64) == target;
        if here {
            out = out | (1u64 << (i as u64));
        }
        proof {
            assert forall|k: int| 0 <= k < 64 implies #[trigger] bit(out, k) == (bit(before, k) || (
            here && k == i)) by {
                bits_combine(before, 1u64 << (i as u64), k);
                bits_of_one(i as int, k);
            }
        }
        i += 1;
    }
    out
}

/// Field-count verifier, one per chunk parse. Supports `1 ≤ N < 64`;
/// wider records route to the DFA backend.
pub struct FieldCounter {
    /// Fields per record.
    n: u32,
    /// Expected `P` pattern per starting phase.
    rotations: [u64; 64],
    /// Boundaries of the current record already seen; `0 ≤ phase < n`.
    phase: u32,
}

/// The boundaries of a vector, counted from `phase`, complete a record just where
/// they should.
pub open spec fn in_step(n: int, phase: int, d_struct: u64, term: u64) -> bool {
    forall|k: int|
        0 <= k < 64 && #[trigger] bit(d_struct, k) ==> bit(term, k) == ((phase + ones(d_struct, k)
            + 1) % n == 0)
}

/// Every rank below the number of bits is the rank of a bit.
proof fn rank_has_bit(d: u64, i: int, upto: int) -> (k: int)
    requires
        0 <= i < ones(d, upto),
        0 <= upto <= 64,
    ensures
        0 <= k < upto,
        bit(d, k),
        ones(d, k) == i,
    decreases upto,
{
    if bit(d, upto - 1) && ones(d, upto - 1) == i {
        upto - 1
    } else {
        rank_has_bit(d, i, upto - 1)
    }
}

impl FieldCounter {
    /// The number of fields is one that is supported, and the patterns are those for it.
    pub closed spec fn wf(self) -> bool {
        &&& 1 <= self.n < 64
        &&& self.phase < self.n
        &&& forall|p: int|
            0 <= p < self.n ==> is_pattern(#[trigger] self.rotations@[p], self.n as int, p)
    }

    /// Fields per record.
    pub closed spec fn fields(self) -> int {
        self.n as int
    }

    /// Boundaries of the current record already seen.
    pub closed spec fn seen(self) -> int {
        self.phase as int
    }

    /// Build a verifier for records with exactly `n` fields.
    pub fn new(n: u32) -> (r: Self)
        requires
            1 <= n < 64,
        ensures
            r.wf(),
            r.fields() == n,
            r.seen() == 0,
    {
        let mut rotations: [u64; 64] = [0u64; 64];
        let mut p: u32 = 0;
        while p < n
            invariant
                p <= n < 64,
                1 <= n,
                forall|q: int|
                    0 <= q < p ==> is_pattern(#[trigger] rotations@[q], n as int, q),
            decreases n - p,
        {
            rotations[p as usize] = expected_pattern(n, p);
            p += 1;
        }
        Self { n, rotations, phase: 0 }
    }

    /// Verify one vector's boundary pattern: PEXT `term` at the positions
    /// `d_struct` selects, then compare the resulting `P` against this
    /// phase's rotation, masked to `popcnt(d_struct)` bits.
    #[verifier::rlimit(40)]
    pub fn verify(&mut self, d_struct: u64, term: u64) -> (r: bool)
        requires
            old(self).wf(),
        ensures
            final(self).wf(),
            final(self).fields() == old(self).fields(),
            r == in_step(old(self).fields(), old(self).seen(), d_struct, term),
            r ==> final(self).seen() == (old(self).seen() + ones(d_struct, 64)) % old(
                self).fields(),
            !r ==> final(self).seen() == old(self).seen(),
    {
        let ghost n = self.n as int;
        let ghost phase = self.phase as int;
        let count: u32 = count_ones(d_struct);
        proof {
            vstd::arithmetic::div_mod::lemma_small_mod(phase as nat, n as nat);
        }
        if count == 0 {
            proof {
                assert forall|k: int| 0 <= k < 64 implies !#[trigger] bit(d_struct, k) by {
                    if bit(d_struct, k) {
                        ones_bounds(d_struct, k + 1, 64);
                    }
                }
            }
            return true;
        }
        let p: u64 = pext(term, d_struct);
        let expected: u64 = self.rotations[self.phase as usize];
        assert(is_pattern(expected, n, phase));
        let mask: u64 = below(count as usize);
        let diff: u64 = (p ^ expected) & mask;
        proof {
            assert forall|i: int| 0 <= i < 64 implies #[trigger] bit(diff, i) == (i < count && bit(
                p,
                i,
            ) != bit(expected, i)) by {
                bits_combine(p ^ expected, mask, i);
                bits_combine(p, expected, i);
            }
        }
        if diff != 0 {
            proof {
                super::bitops::bits_lowest(diff);
                let i = vstd::std_specs::bits::u64_trailing_zeros(diff) as int;
                assert(bit(diff, i));
                let k = rank_has_bit(d_struct, i, 64);
                next_remainder(i + phase, n);
                assert(bit(p, i) == bit(term, k));
                assert(bit(term, k) != ((phase + ones(d_struct, k) + 1) % n == 0));
            }
            return false;
        }
        proof {
            assert forall|i: int| 0 <= i < count implies #[trigger] bit(p, i) == ((phase + i + 1) % n
                == 0) by {
                bits_of_one(0, i);
                assert(!bit(diff, i));
                assert(bit(expected, i) == ((i + phase) % n == n - 1));
                next_remainder(i + phase, n);
            }
            assert forall|k: int| 0 <= k < 64 && #[trigger] bit(d_struct, k) implies bit(term, k) == ((
            phase + ones(d_struct, k) + 1) % n == 0) by {
                ones_bounds(d_struct, k + 1, 64);
                assert(bit(p, ones(d_struct, k) as int) == bit(term, k));
            }
            assert forall|i: int| count <= i < 64 implies !#[trigger] bit(p, i) by {}
        }
        let carry: u32 = if p == 0 {
            self.phase
        } else {
            0
        };
        let lead: u32 = p.leading_zeros();
        proof {
            phase_after(n, phase, p, count as int);
        }
        self.phase = (count + lead) - 64 + carry;
        true
    }

    /// Fields-per-record this counter validates.
    pub fn n(&self) -> (r: usize)
        ensures
            r == self.fields(),
    {
        self.n as usize
    }

    /// Current running phase.
    pub fn phase(&self) -> (r: u32)
        ensures
            r == self.seen(),
    {
        self.phase
    }
}

/// How many boundaries follow the last terminator.
proof fn phase_after(n: int, phase: int, p: u64, count: int)
    requires
        1 <= n < 64,
        0 <= phase < n,
        0 < count <= 64,
        forall|i: int| 0 <= i < count ==> #[trigger] bit(p, i) == ((phase + i + 1) % n == 0),
        forall|i: int| count <= i < 64 ==> !#[trigger] bit(p, i),
    ensures
        ({
            let lead = u64_leading_zeros(p);
            let next = count + lead - 64 + if p == 0 {
                phase
            } else {
                0
            };
            &&& 0 <= lead <= 64
            &&& count + lead >= 64
            &&& next == (phase + count) % n
            &&& 0 <= next < n
        }),
{
    axiom_u64_leading_zeros(p);
    let lead = u64_leading_zeros(p);
    if p == 0 {
        assert forall|i: int| 0 <= i < 64 implies !#[trigger] bit(p, i) by {
            bits_of_one(0, i);
        }
        if phase + count >= n {
            let i = n - phase - 1;
            assert(!bit(p, i));
            assert((phase + i + 1) % n == 0) by {
                assert(phase + i + 1 == n);
                assert(n % n == 0) by (nonlinear_arith)
                    requires
                        n >= 1,
                ;
            }
        }
        vstd::arithmetic::div_mod::lemma_small_mod((phase + count) as nat, n as nat);
    } else {
        let h = 63 - lead;
        assert(0 <= h < 64) by {
            assert(lead < 64);
        }
        assert(bit(p, h)) by {
            let j = h as u64;
            assert((p >> j) & 1u64 != 0u64);
            assert((p >> j) & 1u64 == 0u64 || (p >> j) & 1u64 == 1u64) by (bit_vector);
        }
        assert(h < count);
        assert((phase + h + 1) % n == 0);
        let rest = count - h - 1;
        if rest >= n {
            let i = h + n;
            assert(!bit(p, i)) by {
                let j = i as u64;
                assert((p >> j) & 1u64 == 0u64);
            }
            assert((phase + i + 1) % n == 0) by {
                assert(phase + i + 1 == (phase + h + 1) + n);
                vstd::arithmetic::div_mod::lemma_mod_add_multiples_vanish(phase + h + 1, n);
            }
            assert(false);
        }
        vstd::arithmetic::div_mod::lemma_fundamental_div_mod(phase + h + 1, n);
        let q = (phase + h + 1) / n;
        assert(n * q == q * n) by (nonlinear_arith);
        vstd::arithmetic::div_mod::lemma_fundamental_div_mod_converse(phase + count, n, q, rest);
    }
}

/// Where the first line of `y` starts that has another number of fields than `n`,
/// and how many it has; the last line counts as far as it goes.
pub open spec fn located(k: ScannerConfig, y: Seq<u8>, n: int, start: int, found: int) -> bool {
    ||| exists|e: int|
        {
            &&& 0 <= e < y.len()
            &&& #[trigger] bad_line(k, y, n, e)
            &&& forall|j: int| 0 <= j < e ==> !#[trigger] bad_line(k, y, n, j)
            &&& start == line_start(k, y, e)
            &&& found == line_cuts(k, y, e) + 1
        }
    ||| {
        &&& forall|j: int| 0 <= j < y.len() ==> !#[trigger] bad_line(k, y, n, j)
        &&& start == line_start(k, y, y.len() as int)
        &&& found == line_cuts(k, y, y.len() as int) + 1
    }
}

/// Pin down the record the verifier rejected, as `(record_start, found)`,
/// by walking the bytes from `from` — which must start an already
/// accepted record. `found` is a lower bound past the end of `buf`.
pub fn locate(buf: &[u8], from: usize, n: usize, k: ScannerConfig) -> (r: (usize, usize))
    requires
        from <= buf@.len() < usize::MAX,
        !term_at(k, buf@.skip(from as int), 0),
        k.quote matches Some(q) ==> q != k.delim && q != k.term && k.term_b != Some(q),
    ensures
        from <= r.0 <= buf@.len(),
        located(k, buf@.skip(from as int), n as int, r.0 - from, r.1 as int),
{
    let len: usize = buf.len();
    let ghost y = buf@.skip(from as int);
    let mut i: usize = from;
    let mut start: usize = from;
    // Fields = delimiters + 1, so an empty record already counts as one.
    let mut fields: usize = 1;
    let mut in_quotes = false;
    while i < len
        invariant
            from <= start <= i <= len == buf@.len() < usize::MAX,
            y == buf@.skip(from as int),
            k.quote matches Some(q) ==> q != k.delim && q != k.term && k.term_b != Some(q),
            !term_at(k, y, 0),
            in_quotes == inside(k, y, i - from),
            start - from == line_start(k, y, i - from),
            fields == line_cuts(k, y, i - from) + 1,
            fields <= i - from + 1,
            forall|j: int| 0 <= j < i - from ==> !#[trigger] bad_line(k, y, n as int, j),
        decreases len - i,
    {
        let c: u8 = buf[i];
        let ghost at = i - from;
        proof {
            assert(y[at] == c);
            assert(inside(k, y, at + 1) == (inside(k, y, at) != quote_at(k, y, at)));
            starts_before(k, y, at);
        }
        if is_quote(c, k.quote) {
            in_quotes = !in_quotes;
        } else if !in_quotes {
            if is_term(c, k.term, k.term_b) {
                // A terminator right at the start of a line is part of the run before it.
                if start < i && fields != n {
                    assert(bad_line(k, y, n as int, at));
                    return (start, fields);
                }
                start = i + 1;
                fields = 1;
            } else if c == k.delim {
                fields += 1;
            }
        }
        i += 1;
    }
    (start, fields)
}

/// [`locate`] for a dialect given byte by byte.
pub fn locate_bad_record(
    buf: &[u8],
    from: usize,
    n: usize,
    delim: u8,
    term: u8,
    term_b: Option<u8>,
    quote: Option<u8>,
) -> (r: (usize, usize))
    requires
        from <= buf@.len() < usize::MAX,
        from < buf@.len() ==> buf@[from as int] != term && term_b != Some(buf@[from as int]),
        quote matches Some(q) ==> q != delim && q != term && term_b != Some(q),
    ensures
        from <= r.0 <= buf@.len(),
        located(
            ScannerConfig { delim, term, term_b, quote, doubled_quotes: false },
            buf@.skip(from as int),
            n as int,
            r.0 - from,
            r.1 as int,
        ),
{
    locate(buf, from, n, ScannerConfig { delim, term, term_b, quote, doubled_quotes: false })
}

} // verus!
