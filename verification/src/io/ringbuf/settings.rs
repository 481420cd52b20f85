//! User-facing tuning for the ring-buffer I/O backend.

use vstd::prelude::*;

verus! {

/// Per-thread ring-buffer I/O settings.
#[derive(Debug, Copy, Clone, PartialEq, Eq, Structural)]
pub struct RingBufSettings {
    pub buffer_size: usize,
    pub buffer_limit: Option<usize>,
}

impl Default for RingBufSettings {
    fn default() -> (r: Self)
        ensures
            r.buffer_size == 16 * 1024,
            r.buffer_limit == Some(0usize),
    {
        Self { buffer_size: 16 * 1024, buffer_limit: Some(0) }
    }
}

impl RingBufSettings {
    /// Initial capacity of one thread's buffer (default: 16 KiB).
    pub fn buffer_size(self, size: usize) -> (r: Self)
        ensures
            r == (RingBufSettings { buffer_size: size, ..self }),
    {
        RingBufSettings { buffer_size: size, buffer_limit: self.buffer_limit }
    }

    /// Maximum size one thread's buffer may grow to.
    ///
    /// `Some(0)` (the default) is the auto sentinel and will get resolved
    /// by the scheduler, `None` means unbounded.
    pub fn buffer_limit(self, limit: Option<usize>) -> (r: Self)
        ensures
            r == (RingBufSettings { buffer_limit: limit, ..self }),
    {
        RingBufSettings { buffer_size: self.buffer_size, buffer_limit: limit }
    }
}

} // verus!
