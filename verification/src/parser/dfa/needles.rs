//! Finding the next of a few bytes, eight bytes at a time.

use vstd::prelude::*;
use vstd::std_specs::bits::{axiom_u64_trailing_zeros, u64_trailing_zeros};

verus! {

/// Up to four structural bytes for the `InField` / `InQuotedField` fast
/// paths, in a fixed-size array so the scan can dispatch on the needle
/// count without allocating.
#[derive(Debug, Copy, Clone)]
pub struct StructuralNeedles {
    /// The needle bytes themselves; only the first `count` are meaningful.
    pub bytes: [u8; 4],
    /// `bytes[i]` broadcast to all eight lanes for the word-wise scan; unused
    /// lanes repeat `bytes[0]`.
    pub lanes: [u64; 4],
    /// Number of needles actually present, at most four.
    pub count: u8,
}

/// The lowest bit of every lane.
pub const SWAR_LO: u64 = 0x0101_0101_0101_0101;

/// The highest bit of every lane.
pub const SWAR_HI: u64 = 0x8080_8080_8080_8080;

/// Byte `k` of `word`, counted from the low end.
pub open spec fn lane(word: u64, k: u64) -> u64 {
    (word >> ((8 * k) as u64)) & 0xff
}

/// The bits of `word` below lane `k`.
pub open spec fn below(word: u64, k: u64) -> u64 {
    word & (((1u64 << ((8 * k) as u64)) - 1) as u64)
}

/// The tag bit of lane `k`.
pub open spec fn tag(word: u64, k: u64) -> bool {
    (word >> ((8 * k + 7) as u64)) & 1 == 1
}

/// At most four bytes are marked in `mask`.
pub open spec fn at_most_four(mask: Seq<bool>) -> bool {
    exists|a: u8, b: u8, c: u8, d: u8| marked_among(mask, a, b, c, d)
}

/// Every byte marked in `mask` is one of the four given.
pub open spec fn marked_among(mask: Seq<bool>, a: u8, b: u8, c: u8, d: u8) -> bool {
    forall|x: u8| #[trigger] mask[x as int] ==> x == a || x == b || x == c || x == d
}

/// Where the first byte of `hay` for which `want` holds stands.
pub open spec fn first_at(hay: Seq<u8>, want: spec_fn(u8) -> bool, r: Option<usize>) -> bool {
    match r {
        Some(n) => n < hay.len() && want(hay[n as int]) && forall|i: int|
            0 <= i < n ==> !want(#[trigger] hay[i]),
        None => forall|i: int| 0 <= i < hay.len() ==> !want(#[trigger] hay[i]),
    }
}

/// The zero test on all lanes at once tags the lowest zero lane and none below it.
proof fn lemma_zero_tags(x: u64, y: u64, k: u64)
    requires
        k < 8,
        x >= SWAR_LO ==> y == x - SWAR_LO,
        x < SWAR_LO ==> y == x + 0xfefe_fefe_fefe_feffu64,
    ensures
        ({
            let h = (y & !x) & SWAR_HI;
            &&& h & !SWAR_HI == 0
            &&& below(h, k) == 0 ==> (tag(h, k) <==> lane(x, k) == 0)
        }),
{
    assert(({
        let h = (y & !x) & 0x8080_8080_8080_8080u64;
        &&& h & !0x8080_8080_8080_8080u64 == 0
        &&& (h & (((1u64 << ((8 * k) as u64)) - 1) as u64)) == 0 ==> ((h >> ((8 * k + 7) as u64)) & 1 == 1
            <==> (x >> ((8 * k) as u64)) & 0xff == 0)
    })) by (bit_vector)
        requires
            k < 8,
            x >= 0x0101_0101_0101_0101u64 ==> y == x - 0x0101_0101_0101_0101u64,
            x < 0x0101_0101_0101_0101u64 ==> y == x + 0xfefe_fefe_fefe_feffu64,
    ;
}

/// Tags of two words, laid over each other.
proof fn lemma_or_tags(a: u64, b: u64, k: u64)
    requires
        k < 8,
    ensures
        below(a | b, k) == 0 <==> (below(a, k) == 0 && below(b, k) == 0),
        tag(a | b, k) <==> tag(a, k) || tag(b, k),
        (a & !SWAR_HI == 0 && b & !SWAR_HI == 0) ==> (a | b) & !SWAR_HI == 0,
{
    assert(({
        let m = ((1u64 << ((8 * k) as u64)) - 1) as u64;
        &&& (a | b) & m == 0 <==> (a & m == 0 && b & m == 0)
        &&& ((a | b) >> ((8 * k + 7) as u64)) & 1 == 1 <==> ((a >> ((8 * k + 7) as u64)) & 1 == 1 || (b
            >> ((8 * k + 7) as u64)) & 1 == 1)
        &&& (a & !0x8080_8080_8080_8080u64 == 0 && b & !0x8080_8080_8080_8080u64 == 0) ==> (a | b)
            & !0x8080_8080_8080_8080u64 == 0
    })) by (bit_vector)
        requires
            k < 8,
    ;
}

/// A lane of `word` is zero against a broadcast byte exactly where it holds that byte.
proof fn lemma_broadcast(word: u64, b: u8, k: u64)
    requires
        k < 8,
    ensures
        b as u64 * SWAR_LO <= u64::MAX,
        lane(word ^ ((b as u64 * SWAR_LO) as u64), k) == 0 <==> lane(word, k) == b,
{
    assert(b as u64 * 0x0101_0101_0101_0101u64 <= 0xffff_ffff_ffff_ffffu64 && ((((word ^ ((b as u64
        * 0x0101_0101_0101_0101u64) as u64)) >> ((8 * k) as u64)) & 0xff == 0) <==> ((word >> ((8 * k) as u64))
        & 0xff == b as u64))) by (bit_vector)
        requires
            k < 8,
    ;
}

/// The lowest set bit of a tag word names the lowest tagged lane.
proof fn lemma_lowest_tag(h: u64)
    requires
        h != 0,
        h & !SWAR_HI == 0,
    ensures
        u64_trailing_zeros(h) < 64,
        ({
            let n = (u64_trailing_zeros(h) / 8) as u64;
            &&& n < 8
            &&& tag(h, n)
            &&& below(h, n) == 0
            &&& forall|j: u64| j < n ==> #[trigger] below(h, j) == 0
            &&& forall|j: u64| j < n ==> !#[trigger] tag(h, j)
        }),
{
    axiom_u64_trailing_zeros(h);
    let t = u64_trailing_zeros(h) as u64;
    let n = (t / 8) as u64;
    assert(t < 64);
    assert(h << ((64 - t) as u64) == 0);
    assert(n < 8 && (h >> ((8 * n + 7) as u64)) & 1 == 1 && (h & (((1u64 << ((8 * n) as u64)) - 1) as u64))
        == 0) by (bit_vector)
        requires
            t < 64,
            n == t / 8,
            h & !0x8080_8080_8080_8080u64 == 0,
            (h >> t) & 1 == 1,
            h << ((64 - t) as u64) == 0,
    ;
    assert forall|j: u64|
        #![trigger below(h, j)]
        #![trigger tag(h, j)]
        j < n implies below(h, j) == 0 && !tag(h, j) by {
        assert((h & (((1u64 << ((8 * j) as u64)) - 1) as u64)) == 0 && (h >> ((8 * j + 7) as u64)) & 1 != 1)
            by (bit_vector)
            requires
                j < n,
                n < 8,
                (h & (((1u64 << ((8 * n) as u64)) - 1) as u64)) == 0,
        ;
    }
}

/// No bit set: no tag anywhere.
proof fn lemma_no_tags(k: u64)
    requires
        k < 8,
    ensures
        below(0, k) == 0,
        !tag(0, k),
{
    assert((0u64 & (((1u64 << ((8 * k) as u64)) - 1) as u64)) == 0 && (0u64 >> ((8 * k + 7) as u64)) & 1 != 1)
        by (bit_vector)
        requires
            k < 8,
    ;
}

/// The eight bytes of `hay` from `pos` on as one word, the first one lowest.
fn word_at(hay: &[u8], pos: usize) -> (r: u64)
    requires
        pos + 8 <= hay@.len(),
    ensures
        forall|k: u64| k < 8 ==> #[trigger] lane(r, k) == hay@[pos + k],
{
    let (a, b, c, d) = (hay[pos], hay[pos + 1], hay[pos + 2], hay[pos + 3]);
    let (e, f, g, h) = (hay[pos + 4], hay[pos + 5], hay[pos + 6], hay[pos + 7]);
    let r: u64 = (a as u64) | ((b as u64) << 8) | ((c as u64) << 16) | ((d as u64) << 24) | ((
    e as u64) << 32) | ((f as u64) << 40) | ((g as u64) << 48) | ((h as u64) << 56);
    proof {
        assert((r >> 0) & 0xff == a as u64 && (r >> 8) & 0xff == b as u64 && (r >> 16) & 0xff
            == c as u64 && (r >> 24) & 0xff == d as u64 && (r >> 32) & 0xff == e as u64 && (r >> 40)
            & 0xff == f as u64 && (r >> 48) & 0xff == g as u64 && (r >> 56) & 0xff == h as u64)
            by (bit_vector)
            requires
                r == (a as u64) | ((b as u64) << 8) | ((c as u64) << 16) | ((d as u64) << 24) | ((
                e as u64) << 32) | ((f as u64) << 40) | ((g as u64) << 48) | ((h as u64) << 56),
        ;
        assert forall|k: u64| k < 8 implies #[trigger] lane(r, k) == hay@[pos + k] by {
            assert(k == 0 || k == 1 || k == 2 || k == 3 || k == 4 || k == 5 || k == 6 || k == 7);
        }
    }
    r
}

impl StructuralNeedles {
    /// `b` is one of the needles.
    pub open spec fn has(self, b: u8) -> bool {
        exists|i: int| 0 <= i < self.count && #[trigger] self.bytes@[i] == b
    }

    /// The lanes repeat the bytes, and there are at most four.
    pub open spec fn wf(self) -> bool {
        &&& self.count <= 4
        &&& forall|i: int|
            0 <= i < self.count ==> #[trigger] self.lanes@[i] == self.bytes@[i] as u64 * SWAR_LO
    }

    /// The needle set of the bytes marked in `mask`.
    pub fn from_mask(mask: &[bool; 256]) -> (r: Self)
        requires
            at_most_four(mask@),
        ensures
            r.wf(),
            forall|b: u8| #[trigger] r.has(b) <==> mask@[b as int],
    {
        let mut bytes: [u8; 4] = [0u8; 4];
        let mut count: usize = 0;
        let mut b: usize = 0;
        let ghost (w0, w1, w2, w3) = choose|a: u8, b: u8, c: u8, d: u8|
            marked_among(mask@, a, b, c, d);
        while b < 256
            invariant
                b <= 256,
                count <= 4,
                mask@.len() == 256,
                marked_among(mask@, w0, w1, w2, w3),
                forall|i: int| 0 <= i < count ==> #[trigger] bytes@[i] < b && mask@[bytes@[i] as int],
                forall|i: int, j: int| 0 <= i < j < count ==> bytes@[i] < bytes@[j],
                forall|x: u8|
                    x < b && #[trigger] mask@[x as int] ==> exists|i: int|
                        0 <= i < count && bytes@[i] == x,
            decreases 256 - b,
        {
            let ghost old_bytes = bytes@;
            if mask[b] {
                assert(mask@[(b as u8) as int]);
                assert(count < 4) by {
                    if count == 4 {
                        assert(mask@[bytes@[0] as int] && mask@[bytes@[1] as int]
                            && mask@[bytes@[2] as int] && mask@[bytes@[3] as int]);
                        assert(bytes@[0] < bytes@[1] < bytes@[2] < bytes@[3] < b);
                    }
                }
                bytes[count] = b as u8;
                count += 1;
                assert forall|x: u8| x < b + 1 && #[trigger] mask@[x as int] implies exists|i: int|
                    0 <= i < count && bytes@[i] == x by {
                    if x < b {
                        let i = choose|i: int| 0 <= i < count - 1 && old_bytes[i] == x;
                        assert(bytes@[i] == x);
                    } else {
                        assert(bytes@[count - 1] == x);
                    }
                }
            }
            b += 1;
        }
        proof {
            lemma_broadcast(0, bytes@[0], 0);
        }
        let mut lanes: [u64; 4] = [bytes[0] as u64 * SWAR_LO; 4];
        let mut i: usize = 0;
        while i < count
            invariant
                i <= count <= 4,
                forall|j: int|
                    0 <= j < i ==> #[trigger] lanes@[j] == bytes@[j] as u64 * SWAR_LO,
            decreases count - i,
        {
            proof {
                lemma_broadcast(0, bytes@[i as int], 0);
            }
            lanes[i] = bytes[i] as u64 * SWAR_LO;
            i += 1;
        }
        let r = StructuralNeedles { bytes, lanes, count: count as u8 };
        assert forall|b: u8| #[trigger] r.has(b) <==> mask@[b as int] by {
            if mask@[b as int] {
                let i = choose|i: int| 0 <= i < count && bytes@[i] == b;
                assert(r.bytes@[i] == b);
            }
        }
        r
    }

    /// Offset of the first byte of `word` matching one of the first `n`
    /// needles. Per needle a zero test on the xor with its broadcast tags the
    /// high bit of every matching lane; the lowest tagged lane wins.
    fn match_lanes(&self, n: usize, word: u64) -> (r: Option<usize>)
        requires
            self.wf(),
            n == self.count,
        ensures
            r matches Some(k) ==> k < 8 && self.has(lane(word, k as u64) as u8) && forall|j: u64|
                j < k ==> !self.has(#[trigger] lane(word, j) as u8),
            r is None ==> forall|j: u64| j < 8 ==> !self.has(#[trigger] lane(word, j) as u8),
    {
        let mut hits: u64 = 0;
        let mut i: usize = 0;
        proof {
            assert forall|k: u64| k < 8 implies !#[trigger] tag(hits, k) by {
                lemma_no_tags(k);
            }
            assert(0u64 & !SWAR_HI == 0) by (bit_vector);
        }
        while i < n
            invariant
                i <= n == self.count,
                self.wf(),
                hits & !SWAR_HI == 0,
                forall|k: u64|
                    k < 8 && below(hits, k) == 0 ==> (#[trigger] tag(hits, k) <==> exists|m: int|
                        0 <= m < i && #[trigger] self.bytes@[m] == lane(word, k)),
            decreases n - i,
        {
            let x: u64 = word ^ self.lanes[i];
            let y: u64 = x.wrapping_sub(SWAR_LO);
            let h: u64 = (y & !x) & SWAR_HI;
            let ghost before = hits;
            hits = hits | h;
            proof {
                lemma_zero_tags(x, y, 0);
                lemma_or_tags(before, h, 0);
                assert forall|k: u64| k < 8 && below(hits, k) == 0 implies (#[trigger] tag(hits, k)
                    <==> exists|m: int|
                    0 <= m < i + 1 && #[trigger] self.bytes@[m] == lane(word, k)) by {
                    lemma_zero_tags(x, y, k);
                    lemma_or_tags(before, h, k);
                    lemma_broadcast(word, self.bytes@[i as int], k);
                    if tag(before, k) {
                        let m = choose|m: int| 0 <= m < i && self.bytes@[m] == lane(word, k);
                        assert(self.bytes@[m] == lane(word, k));
                    }
                    if tag(h, k) {
                        assert(self.bytes@[i as int] == lane(word, k));
                    }
                }
            }
            i += 1;
        }
        proof {
            assert forall|j: u64| j < 8 implies #[trigger] lane(word, j) <= 0xff by {
                assert((word >> ((8 * j) as u64)) & 0xff <= 0xff) by (bit_vector);
            }
        }
        if hits == 0 {
            proof {
                assert forall|j: u64| j < 8 implies !self.has(#[trigger] lane(word, j) as u8) by {
                    lemma_no_tags(j);
                }
            }
            return None;
        }
        proof {
            lemma_lowest_tag(hits);
            let n = (u64_trailing_zeros(hits) / 8) as u64;
            assert forall|j: u64| j < n implies !self.has(#[trigger] lane(word, j) as u8) by {
                assert(!tag(hits, j));
            }
        }
        Some((hits.trailing_zeros() / 8) as usize)
    }

    /// Offset of the next structural byte in `hay`, or `None` if none.
    pub fn find(&self, hay: &[u8]) -> (r: Option<usize>)
        requires
            self.wf(),
        ensures
            first_at(hay@, |b: u8| self.has(b), r),
    {
        let n: usize = self.count as usize;
        let len: usize = hay.len();
        let mut pos: usize = 0;
        while len - pos >= 8
            invariant
                pos <= len == hay@.len(),
                n == self.count,
                self.wf(),
                forall|i: int| 0 <= i < pos ==> !self.has(#[trigger] hay@[i]),
            decreases len - pos,
        {
            let word: u64 = word_at(hay, pos);
            let hit = self.match_lanes(n, word);
            proof {
                assert forall|i: int|
                    pos <= i < pos + 8 && (hit matches Some(k) ==> i < pos + k) implies !self.has(
                    #[trigger] hay@[i],
                ) by {
                    assert(lane(word, (i - pos) as u64) == hay@[pos + (i - pos) as u64]);
                }
            }
            if let Some(off) = hit {
                assert(lane(word, off as u64) == hay@[pos + off as u64]);
                return Some(pos + off);
            }
            pos += 8;
        }
        if pos < len {
            if len >= 8 {
                // the last word again, whose first bytes hold no needle
                let start: usize = len - 8;
                let word: u64 = word_at(hay, start);
                let hit = self.match_lanes(n, word);
                proof {
                    assert forall|i: int|
                        start <= i < len && (hit matches Some(k) ==> i < start + k) implies !self.has(
                        #[trigger] hay@[i],
                    ) by {
                        assert(lane(word, (i - start) as u64) == hay@[start + (i - start) as u64]);
                    }
                }
                if let Some(off) = hit {
                    assert(lane(word, off as u64) == hay@[start + off as u64]);
                    return Some(start + off);
                }
            } else {
                // shorter than one word: byte by byte
                while pos < len
                    invariant
                        pos <= len == hay@.len(),
                        n == self.count <= 4,
                        forall|i: int| 0 <= i < pos ==> !self.has(#[trigger] hay@[i]),
                    decreases len - pos,
                {
                    let mut j: usize = 0;
                    while j < n
                        invariant
                            j <= n == self.count <= 4,
                            pos < len == hay@.len(),
                            forall|m: int| 0 <= m < j ==> #[trigger] self.bytes@[m] != hay@[pos as int],
                            forall|i: int| 0 <= i < pos ==> !self.has(#[trigger] hay@[i]),
                        decreases n - j,
                    {
                        if self.bytes[j] == hay[pos] {
                            return Some(pos);
                        }
                        j += 1;
                    }
                    pos += 1;
                }
            }
        }
        None
    }
}

} // verus!
