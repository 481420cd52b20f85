//! What the parse has to know of the machine it runs on.

use vstd::prelude::*;

verus! {

/// The machine, as far as it bears on how a parse is run.
#[derive(Debug, Copy, Clone, PartialEq, Eq, Structural)]
pub struct Host {
    /// Alignment unit of buffers, in bytes (typically the page size, 4 KiB).
    pub allocation_granularity: usize,
    /// Number of hardware threads available to the process.
    pub available_parallelism: usize,
    /// Total physical RAM in bytes, if it is known.
    pub total_ram: Option<usize>,
}

impl Host {
    /// There is a thread to run on, and buffers have a size.
    pub open spec fn wf(self) -> bool {
        self.allocation_granularity >= 1 && self.available_parallelism >= 1
    }

    /// A machine of which nothing is known: one thread, and 4 KiB pages.
    pub open spec fn unknown() -> Host {
        Host { allocation_granularity: 4096, available_parallelism: 1, total_ram: None }
    }
}

impl Default for Host {
    /// A machine of which nothing is known: one thread, and 4 KiB pages.
    fn default() -> (r: Self)
        ensures
            r == Host::unknown(),
    {
        Host { allocation_granularity: 4096, available_parallelism: 1, total_ram: None }
    }
}

/// Total physical RAM in bytes, from what the kernel reports: the number of
/// pages and their size.
///
/// Returns `None` if the kernel cannot determine the value.
pub fn total_ram(pages: i64, page_size: usize) -> (r: Option<usize>)
    ensures
        match r {
            None => pages <= 0,
            Some(n) => pages > 0 && n == (if pages * page_size <= usize::MAX {
                pages * page_size
            } else {
                usize::MAX as int
            }),
        },
{
    if pages <= 0 {
        return None;
    }
    let wide: u128 = pages as u128;
    proof {
        assert(pages * page_size <= 0xffff_ffff_ffff_ffff_ffff_ffff_ffff_ffffu128) by (nonlinear_arith)
            requires
                0 < pages <= 0x7fff_ffff_ffff_ffff,
                page_size <= 0xffff_ffff_ffff_ffff,
        ;
        assert(0 <= pages * page_size) by (nonlinear_arith)
            requires
                0 < pages,
                page_size >= 0,
        ;
    }
    let total: u128 = wide * (page_size as u128);
    if total > usize::MAX as u128 {
        Some(usize::MAX)
    } else {
        Some(total as usize)
    }
}

/// Of a machine of which nothing is known, the least is assumed: pages of 4 KiB, one thread,
/// and no amount of memory.
pub proof fn little_is_assumed()
    ensures
        Host::unknown().allocation_granularity == 4096,
        Host::unknown().available_parallelism == 1,
        Host::unknown().total_ram is None,
        Host::unknown().wf(),
{
}

} // verus!
