//! A ring buffer whose contents always lie in one piece.

use vstd::arithmetic::power2::{lemma2_to64, lemma_pow2_unfold, pow2};
use vstd::prelude::*;
use vstd::string::StringExecFns;

use crate::error::{decimal, push_decimal};

verus! {

/// The first of `from`, `2 * from`, `4 * from`, ... that is at least `n`.
pub open spec fn doubled_up(n: int, from: int) -> int
    decreases
            if from < n {
                n - from
            } else {
                0
            },
{
    if from >= n || from < 1 {
        from
    } else {
        doubled_up(n, 2 * from)
    }
}

/// The capacity of a ring buffer that `requested` bytes are asked of: a power
/// of two, and at least the granularity.
pub open spec fn ring_size(requested: int, granularity: int) -> int {
    if doubled_up(requested, 1) < granularity {
        granularity
    } else {
        doubled_up(requested, 1)
    }
}

/// The least power of two that is at least `n`, if it is in range.
pub fn next_power_of_two(n: usize) -> (r: Option<usize>)
    ensures
        match r {
            Some(p) => p == doubled_up(n as int, 1) && p >= 1,
            None => doubled_up(n as int, 1) > usize::MAX,
        },
{
    let mut r: usize = 1;
    while r < n
        invariant
            r >= 1,
            doubled_up(n as int, 1) == doubled_up(n as int, r as int),
        decreases
                if r < n {
                    n - r
                } else {
                    0
                },
    {
        if r > usize::MAX / 2 {
            proof {
                assert(doubled_up(n as int, r as int) == doubled_up(n as int, 2 * r));
                assert(2 * r > usize::MAX);
            }
            return None;
        }
        r = r * 2;
    }
    Some(r)
}

/// `std::io::Error::other`, which makes an error that prints as `message`. Nothing
/// is stated of it.
#[verifier::external_body]
fn other_error(message: String) -> (r: std::io::Error) {
    std::io::Error::other(message)
}

/// What is said of a new ring buffer that would be over its limit.
fn new_over_limit(capacity: usize, granularity: usize, limit: usize) -> (r: String)
    ensures
        r@ == "ring buffer capacity ("@ + decimal(capacity as nat)
            + " bytes, rounded up from the requested size to a power of two and at least the "@
            + decimal(granularity as nat) + "-byte allocation granularity) would exceed limit ("@
            + decimal(limit as nat) + " bytes)"@,
{
    let mut text = String::from_str("ring buffer capacity (");
    push_decimal(&mut text, capacity);
    text.append(" bytes, rounded up from the requested size to a power of two and at least the ");
    push_decimal(&mut text, granularity);
    text.append("-byte allocation granularity) would exceed limit (");
    push_decimal(&mut text, limit);
    text.append(" bytes)");
    text
}

/// What is said of a growing ring buffer that would be over its limit.
fn growth_over_limit(capacity: usize, limit: usize) -> (r: String)
    ensures
        r@ == "ring buffer growth ("@ + decimal(capacity as nat) + " bytes) would exceed limit ("@
            + decimal(limit as nat) + " bytes)"@,
{
    let mut text = String::from_str("ring buffer growth (");
    push_decimal(&mut text, capacity);
    text.append(" bytes) would exceed limit (");
    push_decimal(&mut text, limit);
    text.append(" bytes)");
    text
}

/// What a ring buffer of `size` bytes grows to at most: doubled as often as the limit
/// and the machine allow.
pub open spec fn grown(size: int, limit: Option<usize>) -> int
    decreases usize::MAX - size,
{
    if size >= 1 && within(2 * size, limit) && 4 * size <= usize::MAX {
        grown(2 * size, limit)
    } else {
        size
    }
}

/// Growing stays within the limit.
pub proof fn grown_within(size: int, limit: Option<usize>)
    requires
        within(size, limit),
        size >= 1,
    ensures
        within(grown(size, limit), limit),
        grown(size, limit) >= size,
    decreases usize::MAX - size,
{
    if within(2 * size, limit) && 4 * size <= usize::MAX {
        grown_within(2 * size, limit);
    }
}

/// What `n` bytes can grow to fit into is what the first doubling that holds them
/// shows.
pub proof fn grown_holds(size: int, limit: Option<usize>, n: int)
    requires
        within(size, limit),
        size >= 1,
        2 * size <= usize::MAX,
    ensures
        n <= grown(size, limit) <==> within(doubled_up(n, size), limit) && 2 * doubled_up(n, size)
            <= usize::MAX,
    decreases usize::MAX - size,
{
    grown_within(size, limit);
    if size < n {
        doubled_up_grows(n, 2 * size);
        if within(2 * size, limit) && 4 * size <= usize::MAX {
            grown_holds(2 * size, limit, n);
        }
    }
}

/// A ring buffer is never of no size.
pub proof fn ring_size_some(requested: int, granularity: int)
    ensures
        ring_size(requested, granularity) >= 1,
{
    doubled_up_grows(requested, 1);
}

/// Doubling up makes nothing smaller.
proof fn doubled_up_grows(n: int, from: int)
    requires
        from >= 1,
    ensures
        doubled_up(n, from) >= from,
    decreases
            if from < n {
                n - from
            } else {
                0
            },
{
    if from < n {
        doubled_up_grows(n, 2 * from);
    }
}

/// A contiguous ring buffer.
///
/// What is readable lies in one piece in the storage. When room is asked for, it
/// moves to the front, so that all that is writable follows it.
pub struct RingBuf {
    storage: Vec<u8>,
    capacity: usize,
    limit: Option<usize>,
    start: usize,
    readable: usize,
}

/// A size that no limit forbids.
pub open spec fn within(size: int, limit: Option<usize>) -> bool {
    limit matches Some(l) ==> size <= l
}

impl RingBuf {
    /// The contents and the room behind them fit the storage.
    pub closed spec fn wf(self) -> bool {
        &&& self.storage@.len() == self.capacity
        &&& self.start + self.readable <= self.capacity
        &&& 1 <= self.capacity
        &&& 2 * self.capacity <= usize::MAX
        &&& within(self.capacity as int, self.limit)
    }

    /// What is readable.
    pub closed spec fn view(self) -> Seq<u8> {
        self.storage@.subrange(self.start as int, self.start + self.readable)
    }

    /// Total capacity of the ring buffer.
    pub closed spec fn size(self) -> int {
        self.capacity as int
    }

    /// What the capacity may not grow beyond.
    pub closed spec fn cap(self) -> Option<usize> {
        self.limit
    }

    /// A ring buffer holds no more than its capacity, which is within the limit.
    pub proof fn stays_within(self)
        requires
            self.wf(),
        ensures
            self@.len() <= self.size(),
            1 <= self.size(),
            within(self.size(), self.cap()),
    {
    }

    /// Create a ring buffer of at least the given capacity and an optional
    /// maximum capacity, and of at least `granularity` bytes. Fails if the capacity
    /// is over the maximum, or if twice the capacity is no machine size.
    pub fn new(capacity: usize, limit: Option<usize>, granularity: usize) -> (r: std::io::Result<
        Self,
    >)
        ensures
            r is Ok <==> within(ring_size(capacity as int, granularity as int), limit) && 2
                * ring_size(capacity as int, granularity as int) <= usize::MAX,
            r matches Ok(b) ==> {
                &&& b.wf()
                &&& b@ == Seq::<u8>::empty()
                &&& b.cap() == limit
                &&& b.size() == ring_size(capacity as int, granularity as int)
            },
    {
        let size: usize = match next_power_of_two(capacity) {
            Some(p) => if p < granularity {
                granularity
            } else {
                p
            },
            None => usize::MAX,
        };
        if let Some(limit) = limit {
            if size > limit {
                return Err(other_error(new_over_limit(size, granularity, limit)));
            }
        }
        if size > usize::MAX / 2 {
            return Err(other_error(new_over_limit(size, granularity, usize::MAX / 2)));
        }
        let storage: Vec<u8> = vec![0u8; size];
        let r = RingBuf { storage, capacity: size, limit, start: 0, readable: 0 };
        assert(r@ =~= Seq::empty());
        Ok(r)
    }

    /// Total capacity of the ring buffer.
    pub fn capacity(&self) -> (r: usize)
        ensures
            r == self.size(),
    {
        self.capacity
    }

    /// Number of bytes available to read.
    pub fn readable(&self) -> (r: usize)
        requires
            self.wf(),
        ensures
            r == self@.len(),
    {
        self.readable
    }

    /// Number of bytes available to write.
    pub fn writable(&self) -> (r: usize)
        requires
            self.wf(),
        ensures
            r == self.size() - self@.len(),
    {
        self.capacity - self.readable
    }

    /// Returns the readable region as an immutable slice.
    pub fn data(&self) -> (r: &[u8])
        requires
            self.wf(),
        ensures
            r@ == self@,
    {
        vstd::slice::slice_subrange(self.storage.as_slice(), self.start, self.start + self.readable)
    }

    /// Returns the readable region as a mutable slice.
    pub fn data_mut(&mut self) -> (r: &mut [u8])
        requires
            old(self).wf(),
        ensures
            r@ == old(self)@,
            final(r)@.len() == r@.len() ==> {
                &&& final(self).wf()
                &&& final(self)@ == final(r)@
                &&& final(self).size() == old(self).size()
                &&& final(self).cap() == old(self).cap()
            },
    {
        let start: usize = self.start;
        let readable: usize = self.readable;
        let ghost before = self.storage@;
        let (_, tail) = self.storage.as_mut_slice().split_at_mut(start);
        let (r, _) = tail.split_at_mut(readable);
        proof {
            assert(r@ =~= before.subrange(start as int, start + readable));
        }
        r
    }

    /// Move the contents to the front.
    fn settle(&mut self)
        requires
            old(self).wf(),
        ensures
            final(self).wf(),
            final(self)@ == old(self)@,
            final(self).size() == old(self).size(),
            final(self).cap() == old(self).cap(),
            final(self).start == 0,
    {
        if self.start == 0 {
            return;
        }
        let ghost kept = self@;
        let mut i: usize = 0;
        while i < self.readable
            invariant
                self.wf(),
                0 < self.start,
                i <= self.readable,
                self.capacity == old(self).capacity,
                self.limit == old(self).limit,
                kept.len() == self.readable,
                forall|j: int| i <= j < self.readable ==> #[trigger] kept[j]
                    == self.storage@[self.start + j],
                forall|j: int| 0 <= j < i ==> #[trigger] self.storage@[j] == kept[j],
            decreases self.readable - i,
        {
            let b: u8 = self.storage[self.start + i];
            assert(b == kept[i as int]);
            self.storage.set(i, b);
            i += 1;
        }
        self.start = 0;
        assert(self@ =~= kept);
    }

    /// Returns the writable region (space after the contents) as an immutable slice.
    pub fn unused(&mut self) -> (r: &[u8])
        requires
            old(self).wf(),
        ensures
            final(self).wf(),
            final(self)@ == old(self)@,
            final(self).size() == old(self).size(),
            final(self).cap() == old(self).cap(),
            r@ == final(self).room(),
            r@.len() == old(self).size() - old(self)@.len(),
    {
        self.settle();
        vstd::slice::slice_subrange(self.storage.as_slice(), self.readable, self.capacity)
    }

    /// Returns the writable region (space after the contents) as a mutable slice.
    pub fn unused_mut(&mut self) -> (r: &mut [u8])
        requires
            old(self).wf(),
        ensures
            r@.len() == old(self).size() - old(self)@.len(),
            final(r)@.len() == r@.len() ==> {
                &&& final(self).wf()
                &&& final(self)@ == old(self)@
                &&& final(self).room() == final(r)@
                &&& final(self).size() == old(self).size()
                &&& final(self).cap() == old(self).cap()
            },
    {
        self.settle();
        let ghost kept = self.storage@;
        let start: usize = self.readable;
        let (head, r) = self.storage.as_mut_slice().split_at_mut(start);
        proof {
            assert(head@ =~= kept.take(start as int));
        }
        r
    }

    /// What stands in the storage behind the contents.
    pub closed spec fn room(self) -> Seq<u8> {
        self.storage@.skip(self.start + self.readable)
    }

    /// Mark `n` bytes as produced (written).
    pub fn produce(&mut self, n: usize)
        requires
            old(self).wf(),
            n <= old(self).room().len(),
        ensures
            final(self).wf(),
            final(self)@ == old(self)@ + old(self).room().take(n as int),
            final(self).size() == old(self).size(),
            final(self).cap() == old(self).cap(),
    {
        let ghost before = *self;
        self.readable = self.readable + n;
        assert(self@ =~= before@ + before.room().take(n as int));
    }

    /// Mark `n` bytes as consumed (read).
    pub fn consume(&mut self, n: usize)
        requires
            old(self).wf(),
            n <= old(self)@.len(),
        ensures
            final(self).wf(),
            final(self)@ == old(self)@.skip(n as int),
            final(self).size() == old(self).size(),
            final(self).cap() == old(self).cap(),
    {
        let ghost before = self@;
        self.readable = self.readable - n;
        self.start = self.start + n;
        assert(self@ =~= before.skip(n as int));
    }

    /// Reset the buffer to empty, discarding all data.
    pub fn reset(&mut self)
        requires
            old(self).wf(),
        ensures
            final(self).wf(),
            final(self)@ == Seq::<u8>::empty(),
            final(self).size() == old(self).size(),
            final(self).cap() == old(self).cap(),
    {
        self.start = 0;
        self.readable = 0;
        assert(self@ =~= Seq::empty());
    }

    /// Double the buffer capacity, preserving existing data.
    ///
    /// Errors if doubling would exceed the configured `limit`.
    pub fn grow(&mut self) -> (r: std::io::Result<()>)
        requires
            old(self).wf(),
        ensures
            final(self).wf(),
            final(self)@ == old(self)@,
            final(self).cap() == old(self).cap(),
            r is Ok <==> within(2 * old(self).size(), old(self).cap()) && 4 * old(self).size()
                <= usize::MAX,
            r is Ok ==> final(self).size() == 2 * old(self).size() && final(self)@.len() < final(self).size(),
            r is Err ==> final(self).size() == old(self).size(),
    {
        let new_capacity: usize = self.capacity * 2;
        if let Some(limit) = self.limit {
            if new_capacity > limit {
                return Err(other_error(growth_over_limit(new_capacity, limit)));
            }
        }
        if new_capacity > usize::MAX / 2 {
            return Err(other_error(growth_over_limit(new_capacity, usize::MAX / 2)));
        }
        let mut storage: Vec<u8> = vec![0u8; new_capacity];
        let ghost before = self@;
        let mut i: usize = 0;
        while i < self.readable
            invariant
                self.wf(),
                before == self@,
                i <= self.readable,
                storage@.len() == new_capacity,
                new_capacity == 2 * self.capacity,
                forall|j: int| 0 <= j < i ==> #[trigger] storage@[j] == before[j],
            decreases self.readable - i,
        {
            let b: u8 = self.storage[self.start + i];
            assert(b == before[i as int]);
            storage.set(i, b);
            i += 1;
        }
        self.storage = storage;
        self.capacity = new_capacity;
        self.start = 0;
        assert(self@ =~= before);
        Ok(())
    }
}

/// Doubling up finds the first doubling that is large enough: it is one, it is, and
/// half of it is not.
pub proof fn doubling_up_is_tight(n: int, from: int)
    requires
        from >= 1,
    ensures
        doubled_up(n, from) >= n,
        doubled_up(n, from) >= from,
        exists|k: nat| doubled_up(n, from) == from * #[trigger] pow2(k),
        doubled_up(n, from) == from || (doubled_up(n, from) % 2 == 0 && doubled_up(n, from) / 2 < n),
    decreases
            if from < n {
                n - from
            } else {
                0
            },
{
    if from < n {
        doubling_up_is_tight(n, 2 * from);
        let k = choose|k: nat| doubled_up(n, 2 * from) == (2 * from) * #[trigger] pow2(k);
        lemma_pow2_unfold(k + 1);
        assert((2 * from) * pow2(k) == from * (2 * pow2(k))) by (nonlinear_arith);
        assert(doubled_up(n, from) == from * pow2(k + 1));
    } else {
        lemma2_to64();
        assert(from * pow2(0) == from);
    }
}

/// A ring buffer is of the size asked for, rounded up to a power of two, and no smaller
/// than the granularity: it is the granularity, or a power of two whose half is less
/// than was asked for.
pub proof fn ring_sizes_are_tight(requested: int, granularity: int)
    ensures
        ring_size(requested, granularity) >= requested,
        ring_size(requested, granularity) >= granularity,
        ring_size(requested, granularity) == granularity || exists|k: nat| #[trigger] pow2(k)
            == ring_size(requested, granularity),
        ring_size(requested, granularity) == granularity || ring_size(requested, granularity) == 1
            || ring_size(requested, granularity) / 2 < requested,
{
    doubling_up_is_tight(requested, 1);
    let k = choose|k: nat| doubled_up(requested, 1) == 1 * #[trigger] pow2(k);
    assert(pow2(k) == doubled_up(requested, 1));
}

/// A ring buffer grows by doubling, within the limit, and as far as that goes.
pub proof fn growth_is_tight(size: int, limit: Option<usize>)
    requires
        size >= 1,
        limit matches Some(l) ==> size <= l,
    ensures
        exists|k: nat| grown(size, limit) == size * #[trigger] pow2(k),
        limit matches Some(l) ==> grown(size, limit) <= l,
        (limit matches Some(l) && 2 * grown(size, limit) > l) || 4 * grown(size, limit) > usize::MAX,
    decreases usize::MAX - size,
{
    if within(2 * size, limit) && 4 * size <= usize::MAX {
        growth_is_tight(2 * size, limit);
        let k = choose|k: nat| grown(2 * size, limit) == (2 * size) * #[trigger] pow2(k);
        lemma_pow2_unfold(k + 1);
        assert((2 * size) * pow2(k) == size * (2 * pow2(k))) by (nonlinear_arith);
        assert(grown(size, limit) == size * pow2(k + 1));
    } else {
        lemma2_to64();
        assert(size * pow2(0) == size);
    }
}

} // verus!
