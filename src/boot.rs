//! The extents that the frame allocator must exclude, computed from what the
//! boot loader reports.
use vstd::prelude::*;

verus! {

/// A loaded section of the kernel image: its start address and its size in
/// bytes.
#[derive(Debug, Clone, Copy, PartialEq, Eq, Structural)]
pub struct SectionExtent {
    pub addr: u64,
    pub size: u64,
}

impl SectionExtent {
    /// The address one past the section's last byte.
    pub open spec fn end(self) -> int {
        self.addr + self.size
    }
}

/// The span of the kernel image: from the least section start to the
/// greatest section end. `None` when there is no section, or when a
/// section's end does not fit in 64 bits.
pub fn kernel_extent(sections: &Vec<SectionExtent>) -> (r: Option<(u64, u64)>)
    ensures
        r is None <==> (sections@.len() == 0 || exists|i: int|
            0 <= i < sections@.len() && #[trigger] sections@[i].end() > u64::MAX),
        r matches Some((start, end)) ==> {
            &&& exists|i: int| 0 <= i < sections@.len() && #[trigger] sections@[i].addr == start
            &&& exists|i: int| 0 <= i < sections@.len() && #[trigger] sections@[i].end() == end
            &&& forall|i: int|
                0 <= i < sections@.len() ==> start <= #[trigger] sections@[i].addr && sections@[i].end() <= end
        },
{
    if sections.len() == 0 {
        return None;
    }
    let mut start: u64 = sections[0].addr;
    let mut end: u64 = 0;
    let mut lo: usize = 0;
    let mut hi: usize = 0;
    let mut i: usize = 0;
    while i < sections.len()
        invariant
            0 < sections@.len(),
            i <= sections@.len(),
            lo < sections@.len(),
            sections@[lo as int].addr == start,
            forall|k: int| 0 <= k < i ==> start <= #[trigger] sections@[k].addr,
            forall|k: int| 0 <= k < i ==> #[trigger] sections@[k].end() <= u64::MAX,
            i > 0 ==> hi < i && sections@[hi as int].end() == end,
            forall|k: int| 0 <= k < i ==> #[trigger] sections@[k].end() <= end,
        decreases sections@.len() - i,
    {
        let s = sections[i];
        if s.size > u64::MAX - s.addr {
            assert(sections@[i as int].end() > u64::MAX);
            return None;
        }
        if s.addr < start {
            start = s.addr;
            lo = i;
        }
        if i == 0 || s.addr + s.size > end {
            end = s.addr + s.size;
            hi = i;
        }
        i += 1;
    }
    Some((start, end))
}

/// The span of the boot information: from its base address to that address
/// plus its total size. `None` when the end does not fit in a `usize`.
pub fn boot_info_extent(start: usize, total_size: usize) -> (r: Option<(usize, usize)>)
    ensures
        r is None <==> start + total_size > usize::MAX,
        r matches Some((s, e)) ==> s == start && e == start + total_size,
{
    if total_size > usize::MAX - start {
        None
    } else {
        Some((start, start + total_size))
    }
}

} // verus!
