//! A frame allocator that walks the memory areas reported by the boot loader
//! in order of base address and skips the kernel image and the boot
//! information structure.
use vstd::prelude::*;

use super::{frame_of, Frame, FrameAllocator, PAGE_SIZE};

verus! {

/// One more than the largest frame index that a 64-bit address can reach.
pub open spec fn frame_limit() -> int {
    0x10_0000_0000_0000
}

/// Frame indices grow with addresses and stay below `frame_limit()`.
proof fn lemma_frame_of_ordered(a: int, b: int)
    requires
        0 <= a <= b,
    ensures
        0 <= frame_of(a) <= frame_of(b),
        b <= u64::MAX ==> frame_of(b) < frame_limit(),
{
    vstd::arithmetic::div_mod::lemma_div_is_ordered(a, b, PAGE_SIZE as int);
    vstd::arithmetic::div_mod::lemma_div_pos_is_pos(a, PAGE_SIZE as int);
    if b <= u64::MAX {
        vstd::arithmetic::div_mod::lemma_div_is_ordered(b, u64::MAX as int, PAGE_SIZE as int);
        assert((u64::MAX as int) / 4096 == 0xf_ffff_ffff_ffff) by (nonlinear_arith);
    }
}

/// A contiguous range of physical memory reported by the boot loader.
#[derive(Debug, Clone, Copy, PartialEq, Eq, Structural)]
pub struct MemoryArea {
    pub base_addr: u64,
    pub length: u64,
}

impl MemoryArea {
    /// The area's last byte, `base_addr + length - 1`, is a 64-bit address.
    pub open spec fn wf(self) -> bool {
        1 <= self.base_addr + self.length <= u64::MAX
    }

    /// The frame that holds the area's first byte.
    pub open spec fn start_frame(self) -> int {
        frame_of(self.base_addr as int)
    }

    /// The frame that holds the area's last byte.
    pub open spec fn last_frame(self) -> int {
        frame_of(self.base_addr + self.length - 1)
    }

    /// Frame `f` lies between the area's start frame and its last frame.
    pub open spec fn holds(self, f: int) -> bool {
        self.start_frame() <= f <= self.last_frame()
    }

    /// Whether the area's last byte can be addressed.
    pub fn is_valid(&self) -> (r: bool)
        ensures
            r == self.wf(),
    {
        self.length <= u64::MAX - self.base_addr && (self.base_addr > 0 || self.length > 0)
    }

    /// The frame that holds the area's first byte.
    fn first(&self) -> (r: Frame)
        ensures
            r.number == self.start_frame(),
    {
        Frame::from_physical_address(self.base_addr)
    }

    /// The frame that holds the area's last byte.
    fn last(&self) -> (r: Frame)
        requires
            self.wf(),
        ensures
            r.number == self.last_frame(),
    {
        Frame::from_physical_address(self.base_addr + self.length - 1)
    }
}

/// What decides which frames an allocator hands out: the reported areas and
/// the two inclusive ranges of frames that must never be handed out.
pub struct FrameLayout {
    pub areas: Seq<MemoryArea>,
    pub kernel_start: int,
    pub kernel_end: int,
    pub multiboot_start: int,
    pub multiboot_end: int,
}

impl FrameLayout {
    /// Every area's last byte is a 64-bit address.
    pub open spec fn wf(self) -> bool {
        forall|i: int| 0 <= i < self.areas.len() ==> #[trigger] self.areas[i].wf()
    }

    /// Frame `f` lies in at least one reported area.
    pub open spec fn in_some_area(self, f: int) -> bool {
        exists|i: int| 0 <= i < self.areas.len() && #[trigger] self.areas[i].holds(f)
    }

    /// Frame `f` holds part of the kernel image or of the boot information.
    pub open spec fn is_excluded(self, f: int) -> bool {
        (self.kernel_start <= f <= self.kernel_end) || (self.multiboot_start <= f
            <= self.multiboot_end)
    }

    /// Frame `f` may be handed out.
    pub open spec fn usable(self, f: int) -> bool {
        self.in_some_area(f) && !self.is_excluded(f)
    }

    /// The least usable frame at or above `from`, if there is one.
    pub open spec fn first_usable_from(self, from: int) -> Option<int>
        decreases frame_limit() - from,
    {
        if from >= frame_limit() {
            None
        } else if self.usable(from) {
            Some(from)
        } else {
            self.first_usable_from(from + 1)
        }
    }

    /// The results of `n` successive allocations that start at cursor `from`.
    pub open spec fn allocations(self, from: int, n: nat) -> Seq<Option<int>>
        decreases n,
    {
        if n == 0 {
            Seq::empty()
        } else {
            match self.first_usable_from(from) {
                Some(f) => seq![Some(f)] + self.allocations(f + 1, (n - 1) as nat),
                None => Seq::new(n, |i: int| None),
            }
        }
    }
}

/// Under a valid layout, no frame at or beyond `frame_limit()` lies in an area.
proof fn lemma_areas_below_limit(l: FrameLayout, f: int)
    requires
        l.wf(),
        l.in_some_area(f),
    ensures
        f < frame_limit(),
{
    let i = choose|i: int| 0 <= i < l.areas.len() && #[trigger] l.areas[i].holds(f);
    assert(l.areas[i].wf());
    lemma_frame_of_ordered(0, l.areas[i].base_addr + l.areas[i].length - 1);
}

/// Skipping frames that are not usable does not change the next usable one.
proof fn lemma_skip_unusable(l: FrameLayout, a: int, b: int)
    requires
        a <= b,
        forall|g: int| a <= g < b ==> !#[trigger] l.usable(g),
    ensures
        l.first_usable_from(a) == l.first_usable_from(b),
    decreases b - a,
{
    if a < b && a < frame_limit() {
        assert(!l.usable(a));
        lemma_skip_unusable(l, a + 1, b);
    } else if a < b {
        lemma_none_beyond_limit(l, a);
        lemma_none_beyond_limit(l, b);
    }
}

/// Nothing is usable from the frame limit on.
proof fn lemma_none_beyond_limit(l: FrameLayout, a: int)
    requires
        a >= frame_limit(),
    ensures
        l.first_usable_from(a) is None,
{
}

/// When no frame at or above `a` is usable, none is found from `a`.
proof fn lemma_none_usable(l: FrameLayout, a: int)
    requires
        forall|g: int| a <= g ==> !#[trigger] l.usable(g),
    ensures
        l.first_usable_from(a) is None,
    decreases frame_limit() - a,
{
    if a < frame_limit() {
        assert(!l.usable(a));
        lemma_none_usable(l, a + 1);
    }
}

/// What `first_usable_from` returns is usable, at or above the cursor, and no
/// frame between the cursor and it is usable.
pub proof fn lemma_first_usable(l: FrameLayout, from: int)
    ensures
        match l.first_usable_from(from) {
            Some(f) => from <= f && l.usable(f) && forall|g: int|
                from <= g < f ==> !#[trigger] l.usable(g),
            None => forall|g: int| from <= g ==> !#[trigger] l.usable(g) || !l.wf(),
        },
    decreases frame_limit() - from,
{
    if from >= frame_limit() {
        assert forall|g: int| from <= g implies !#[trigger] l.usable(g) || !l.wf() by {
            if l.usable(g) && l.wf() {
                lemma_areas_below_limit(l, g);
            }
        }
    } else if !l.usable(from) {
        lemma_first_usable(l, from + 1);
    }
}

/// The frame index of an allocation result.
pub open spec fn frame_number(r: Option<Frame>) -> Option<int> {
    match r {
        Some(f) => Some(f.number as int),
        None => None,
    }
}

/// Once nothing is usable from `a`, every further allocation is `None`.
proof fn lemma_allocations_none(l: FrameLayout, a: int, n: nat)
    requires
        l.first_usable_from(a) is None,
    ensures
        l.allocations(a, n) == Seq::new(n, |i: int| None::<int>),
{
    assert(l.allocations(a, n) =~= Seq::new(n, |i: int| None::<int>));
}

/// From two exhausted cursors, a `None` followed by `n` results is the same
/// as `n + 1` results.
proof fn lemma_exhausted_runs(l: FrameLayout, a: int, b: int)
    requires
        l.first_usable_from(a) is None,
        l.first_usable_from(b) is None,
    ensures
        forall|n: nat|
            seq![frame_number(None)] + #[trigger] l.allocations(b, n) == l.allocations(a, n + 1),
{
    assert forall|n: nat| seq![frame_number(None)] + #[trigger] l.allocations(b, n) == l.allocations(
        a,
        n + 1,
    ) by {
        lemma_allocations_none(l, a, n + 1);
        lemma_allocations_none(l, b, n);
        assert(seq![None::<int>] + Seq::new(n, |i: int| None::<int>) =~= Seq::new(
            n + 1,
            |i: int| None::<int>,
        ));
    }
}

/// Allocations depend on the cursor only through the next usable frame.
proof fn lemma_allocations_agree(l: FrameLayout, a: int, b: int, n: nat)
    requires
        l.first_usable_from(a) == l.first_usable_from(b),
    ensures
        l.allocations(a, n) == l.allocations(b, n),
{
}

/// Hands out frames in increasing order, one at a time, from the reported
/// areas, never one that holds the kernel image or the boot information.
pub struct AreaFrameAllocator {
    next_free_frame: Frame,
    current_area: Option<usize>,
    areas: Vec<MemoryArea>,
    kernel_start: Frame,
    kernel_end: Frame,
    multiboot_start: Frame,
    multiboot_end: Frame,
}

impl AreaFrameAllocator {
    /// The areas and the excluded ranges this allocator works from.
    pub closed spec fn layout(&self) -> FrameLayout {
        FrameLayout {
            areas: self.areas@,
            kernel_start: self.kernel_start.number as int,
            kernel_end: self.kernel_end.number as int,
            multiboot_start: self.multiboot_start.number as int,
            multiboot_end: self.multiboot_end.number as int,
        }
    }

    /// The next frame to consider.
    pub closed spec fn next_free(&self) -> int {
        self.next_free_frame.number as int
    }

    /// The state between selections: the areas and the exclusions are valid
    /// and the cursor is at most one past the last possible frame.
    closed spec fn cursor_ok(&self) -> bool {
        &&& self.layout().wf()
        &&& self.next_free() <= frame_limit()
        &&& self.kernel_end.number < frame_limit()
        &&& self.multiboot_end.number < frame_limit()
    }

    /// The cursor is consistent with the area being consumed: that area
    /// starts at or below the cursor, and when there is none, every area ends
    /// below the cursor.
    pub closed spec fn wf(&self) -> bool {
        &&& self.cursor_ok()
        &&& match self.current_area {
            Some(i) => i < self.areas@.len() && self.areas@[i as int].start_frame()
                <= self.next_free(),
            None => forall|j: int|
                0 <= j < self.areas@.len() ==> #[trigger] self.areas@[j].last_frame()
                    < self.next_free(),
        }
    }

    /// No allocation is left: every further call returns `None`.
    pub open spec fn is_exhausted(&self) -> bool {
        self.layout().first_usable_from(self.next_free()) is None
    }

    fn is_kernel_frame(&self, frame: &Frame) -> (r: bool)
        ensures
            r == (self.kernel_start.number <= frame.number <= self.kernel_end.number),
    {
        frame.number >= self.kernel_start.number && frame.number <= self.kernel_end.number
    }

    fn is_multiboot_frame(&self, frame: &Frame) -> (r: bool)
        ensures
            r == (self.multiboot_start.number <= frame.number <= self.multiboot_end.number),
    {
        frame.number >= self.multiboot_start.number && frame.number <= self.multiboot_end.number
    }

    /// Selects, among the areas whose last frame is at or above the cursor,
    /// the one with the smallest base address (the earliest in the list on a
    /// tie), and moves the cursor up to its start frame if it lies below.
    fn choose_next_area(&mut self)
        requires
            old(self).cursor_ok(),
        ensures
            final(self).wf(),
            final(self).layout() == old(self).layout(),
            old(self).next_free() <= final(self).next_free(),
            forall|g: int|
                old(self).next_free() <= g < final(self).next_free() ==> !(
                #[trigger] final(self).layout().in_some_area(g)),
            match final(self).current_area {
                Some(i) => {
                    &&& old(self).areas@[i as int].last_frame() >= old(self).next_free()
                    &&& final(self).next_free() == if old(self).next_free()
                        < old(self).areas@[i as int].start_frame() {
                        old(self).areas@[i as int].start_frame()
                    } else {
                        old(self).next_free()
                    }
                    &&& forall|j: int|
                        0 <= j < old(self).areas@.len() && #[trigger] old(
                            self,
                        ).areas@[j].last_frame() >= old(self).next_free() ==> {
                            &&& old(self).areas@[i as int].base_addr <= old(
                                self,
                            ).areas@[j].base_addr
                            &&& j < i ==> old(self).areas@[i as int].base_addr < old(
                                self,
                            ).areas@[j].base_addr
                        }
                },
                None => final(self).next_free() == old(self).next_free(),
            },
    {
        let next = self.next_free_frame.number;
        assert(self.layout().wf());
        assert(self.layout().areas == self.areas@);
        let mut best: Option<usize> = None;
        let mut j: usize = 0;
        while j < self.areas.len()
            invariant
                j <= self.areas@.len(),
                self.layout().wf(),
                forall|k: int| 0 <= k < self.areas@.len() ==> #[trigger] self.areas@[k].wf(),
                match best {
                    Some(b) => {
                        &&& b < j
                        &&& self.areas@[b as int].last_frame() >= next
                        &&& forall|k: int|
                            0 <= k < j && #[trigger] self.areas@[k].last_frame() >= next ==> {
                                &&& self.areas@[b as int].base_addr <= self.areas@[k].base_addr
                                &&& k < b ==> self.areas@[b as int].base_addr
                                    < self.areas@[k].base_addr
                            }
                    },
                    None => forall|k: int|
                        0 <= k < j ==> #[trigger] self.areas@[k].last_frame() < next,
                },
            decreases self.areas@.len() - j,
        {
            let last = self.areas[j].last();
            if last.number >= next {
                match best {
                    None => {
                        best = Some(j);
                    },
                    Some(b) => {
                        if self.areas[j].base_addr < self.areas[b].base_addr {
                            best = Some(j);
                        }
                    },
                }
            }
            j += 1;
        }
        self.current_area = best;
        if let Some(b) = best {
            let start = self.areas[b].first();
            if next < start.number {
                self.next_free_frame = start;
            }
            proof {
                let l = self.layout();
                assert(l.areas[b as int].wf());
                lemma_frame_of_ordered(0, l.areas[b as int].base_addr as int);
                lemma_frame_of_ordered(l.areas[b as int].base_addr as int, u64::MAX as int);
                assert forall|g: int| next <= g < self.next_free() implies !(
                #[trigger] l.in_some_area(g)) by {
                    if l.in_some_area(g) {
                        let k = choose|k: int| 0 <= k < l.areas.len() && #[trigger] l.areas[k].holds(g);
                        assert(l.areas[k].last_frame() >= next);
                        lemma_frame_of_ordered(
                            l.areas[b as int].base_addr as int,
                            l.areas[k].base_addr as int,
                        );
                    }
                }
            }
        }
    }

    /// Creates an allocator over `memory_areas` that never hands out a frame
    /// holding an address in `kernel_start..=kernel_end` or in
    /// `multiboot_start..=multiboot_end`. The first allocation returns the
    /// least usable frame.
    pub fn new(
        kernel_start: usize,
        kernel_end: usize,
        multiboot_start: usize,
        multiboot_end: usize,
        memory_areas: Vec<MemoryArea>,
    ) -> (r: AreaFrameAllocator)
        requires
            forall|i: int| 0 <= i < memory_areas@.len() ==> #[trigger] memory_areas@[i].wf(),
        ensures
            r.wf(),
            r.layout() == (FrameLayout {
                areas: memory_areas@,
                kernel_start: frame_of(kernel_start as int),
                kernel_end: frame_of(kernel_end as int),
                multiboot_start: frame_of(multiboot_start as int),
                multiboot_end: frame_of(multiboot_end as int),
            }),
            r.layout().first_usable_from(r.next_free()) == r.layout().first_usable_from(0),
            forall|n: nat|
                #[trigger] r.layout().allocations(r.next_free(), n) == r.layout().allocations(0, n),
    {
        let mut allocator = AreaFrameAllocator {
            next_free_frame: Frame::from_physical_address(0),
            current_area: None,
            areas: memory_areas,
            kernel_start: Frame::from_physical_address(kernel_start as u64),
            kernel_end: Frame::from_physical_address(kernel_end as u64),
            multiboot_start: Frame::from_physical_address(multiboot_start as u64),
            multiboot_end: Frame::from_physical_address(multiboot_end as u64),
        };
        proof {
            lemma_frame_of_ordered(0, kernel_end as int);
            lemma_frame_of_ordered(0, multiboot_end as int);
        }
        allocator.choose_next_area();
        proof {
            let l = allocator.layout();
            lemma_skip_unusable(l, 0, allocator.next_free());
            assert forall|n: nat| #[trigger] l.allocations(allocator.next_free(), n) == l.allocations(0, n) by {
                lemma_allocations_agree(l, allocator.next_free(), 0, n);
            }
        }
        allocator
    }
}


impl AreaFrameAllocator {
    /// With no area being consumed, every area ends below the cursor and
    /// nothing is left to hand out.
    proof fn lemma_no_area_left(&self)
        requires
            self.wf(),
            self.current_area is None,
        ensures
            forall|g: int| self.next_free() <= g ==> !#[trigger] self.layout().usable(g),
            self.is_exhausted(),
    {
        let l = self.layout();
        assert forall|g: int| self.next_free() <= g implies !#[trigger] l.usable(g) by {
            if l.in_some_area(g) {
                let k = choose|k: int| 0 <= k < l.areas.len() && #[trigger] l.areas[k].holds(g);
                assert(self.areas@[k].last_frame() < self.next_free());
            }
        }
        lemma_none_usable(l, self.next_free());
    }
}

impl FrameAllocator for AreaFrameAllocator {
    open spec fn inv(&self) -> bool {
        self.wf()
    }

    /// No frame can be given back: the allocator keeps no record of freed
    /// frames.
    open spec fn takes_back(&self, frame: Frame) -> bool {
        false
    }

    /// Returns the least usable frame at or above the cursor and moves the
    /// cursor past it; returns `None`, and stays exhausted, when there is no
    /// such frame.
    fn allocate_frame(&mut self) -> (r: Option<Frame>)
        ensures
            final(self).layout() == old(self).layout(),
            frame_number(r) == old(self).layout().first_usable_from(old(self).next_free()),
            match r {
                Some(f) => {
                    &&& old(self).layout().usable(f.number as int)
                    &&& final(self).next_free() == f.number + 1
                },
                None => old(self).is_exhausted() && final(self).is_exhausted(),
            },
            forall|n: nat|
                seq![frame_number(r)] + #[trigger] final(self).layout().allocations(
                    final(self).next_free(),
                    n,
                ) == old(self).layout().allocations(old(self).next_free(), n + 1),
    {
        let ghost start = self.next_free();
        let ghost l = self.layout();
        loop
            invariant
                self.wf(),
                self.layout() == l,
                l == old(self).layout(),
                start == old(self).next_free(),
                start <= self.next_free(),
                forall|g: int| start <= g < self.next_free() ==> !#[trigger] l.usable(g),
            decreases 2 * (frame_limit() - self.next_free()) + match self.current_area {
                Some(i) => if self.next_free() <= self.areas@[i as int].last_frame() {
                    0int
                } else {
                    1int
                },
                None => 1int,
            },
        {
            match self.current_area {
                None => {
                    proof {
                        self.lemma_no_area_left();
                        lemma_skip_unusable(l, start, self.next_free());
                        lemma_exhausted_runs(l, start, self.next_free());
                    }
                    return None;
                },
                Some(i) => {
                    let frame = Frame { number: self.next_free_frame.number };
                    proof {
                        assert(self.layout().areas[i as int].wf());
                    }
                    let last = self.areas[i].last();
                    if frame.number > last.number {
                        self.choose_next_area();
                        if self.current_area.is_none() {
                            proof {
                                self.lemma_no_area_left();
                                lemma_skip_unusable(l, start, self.next_free());
                                lemma_exhausted_runs(l, start, self.next_free());
                            }
                            return None;
                        }
                    } else if self.is_kernel_frame(&frame) {
                        self.next_free_frame = Frame { number: self.kernel_end.number + 1 };
                    } else if self.is_multiboot_frame(&frame) {
                        self.next_free_frame = Frame { number: self.multiboot_end.number + 1 };
                    } else {
                        proof {
                            assert(l.areas[i as int].holds(frame.number as int));
                            assert(l.usable(frame.number as int));
                            lemma_skip_unusable(l, start, frame.number as int);
                        }
                        self.next_free_frame = Frame { number: frame.number + 1 };
                        proof {
                            assert forall|n: nat|
                                seq![frame_number(Some(frame))] + #[trigger] l.allocations(
                                    self.next_free(),
                                    n,
                                ) == l.allocations(start, n + 1) by {
                                assert(l.allocations(start, n + 1) == seq![
                                    Some(frame.number as int),
                                ] + l.allocations(frame.number + 1, n));
                            }
                        }
                        return Some(frame);
                    }
                },
            }
        }
    }

    /// Giving a frame back is not supported; `takes_back` holds of no frame,
    /// so no verified caller can reach this.
    fn deallocate_frame(&mut self, frame: Frame) {
    }
}

/// A run of `n` allocations has `n` results.
proof fn lemma_allocations_len(l: FrameLayout, a: int, n: nat)
    ensures
        l.allocations(a, n).len() == n,
    decreases n,
{
    if n > 0 {
        if let Some(f) = l.first_usable_from(a) {
            lemma_allocations_len(l, f + 1, (n - 1) as nat);
        }
    }
}

/// Every result in a run of allocations is usable and at or above the
/// starting cursor, and the results strictly increase.
proof fn lemma_allocations_ordered(l: FrameLayout, a: int, n: nat)
    ensures
        forall|k: int|
            0 <= k < n && #[trigger] l.allocations(a, n)[k] is Some ==> {
                &&& a <= l.allocations(a, n)[k]->Some_0
                &&& l.usable(l.allocations(a, n)[k]->Some_0) || !l.wf()
            },
        forall|i: int, j: int|
            0 <= i < j < n && #[trigger] l.allocations(a, n)[i] is Some
                && #[trigger] l.allocations(a, n)[j] is Some ==> l.allocations(a, n)[i]->Some_0
                < l.allocations(a, n)[j]->Some_0,
    decreases n,
{
    if n > 0 {
        lemma_first_usable(l, a);
        if let Some(f) = l.first_usable_from(a) {
            lemma_allocations_ordered(l, f + 1, (n - 1) as nat);
            let s = l.allocations(a, n);
            let t = l.allocations(f + 1, (n - 1) as nat);
            lemma_allocations_len(l, f + 1, (n - 1) as nat);
            assert(s == seq![Some(f)] + t);
            assert forall|k: int| 0 < k < n implies #[trigger] s[k] == t[k - 1] by {}
            if !l.wf() {
            } else {
                assert(l.usable(f));
            }
        }
    }
}

/// Allocations never hand out a frame twice: of two results, the later one,
/// when both are frames, is strictly greater.
pub proof fn law_no_frame_twice(l: FrameLayout, from: int, n: nat, i: int, j: int)
    requires
        0 <= i < j < n,
        l.allocations(from, n)[i] is Some,
        l.allocations(from, n)[j] is Some,
    ensures
        l.allocations(from, n)[i]->Some_0 < l.allocations(from, n)[j]->Some_0,
{
    lemma_allocations_ordered(l, from, n);
}

/// No allocation hands out a frame of the kernel image or of the boot
/// information.
pub proof fn law_never_excluded(l: FrameLayout, from: int, n: nat, k: int)
    requires
        l.wf(),
        0 <= k < n,
        l.allocations(from, n)[k] is Some,
    ensures
        !l.is_excluded(l.allocations(from, n)[k]->Some_0),
        l.in_some_area(l.allocations(from, n)[k]->Some_0),
{
    lemma_allocations_ordered(l, from, n);
}

/// Once an allocation returns `None`, every later one does too.
pub proof fn law_exhaustion_is_final(l: FrameLayout, from: int, n: nat, i: int, j: int)
    requires
        0 <= i <= j < n,
        l.allocations(from, n)[i] is None,
    ensures
        l.allocations(from, n)[j] is None,
    decreases n,
{
    if let Some(f) = l.first_usable_from(from) {
        let t = l.allocations(f + 1, (n - 1) as nat);
        lemma_allocations_len(l, f + 1, (n - 1) as nat);
        assert(l.allocations(from, n) == seq![Some(f)] + t);
        assert(l.allocations(from, n)[0] is Some);
        assert(l.allocations(from, n)[i] == t[i - 1]);
        assert(l.allocations(from, n)[j] == t[j - 1]);
        law_exhaustion_is_final(l, f + 1, (n - 1) as nat, i - 1, j - 1);
    }
}

/// When exactly the frames below `m` are usable, allocations from cursor `k`
/// return `k`, `k + 1`, ... up to `m - 1`, then `None`.
proof fn lemma_in_order(l: FrameLayout, m: int, k: int, n: nat)
    requires
        0 <= k,
        m <= frame_limit(),
        forall|f: int| #[trigger] l.usable(f) <==> 0 <= f < m,
    ensures
        l.allocations(k, n) =~= Seq::new(n, |i: int| if k + i < m { Some(k + i) } else { None }),
    decreases n,
{
    if n > 0 {
        if k < m {
            assert(l.usable(k));
            lemma_in_order(l, m, k + 1, (n - 1) as nat);
        } else {
            lemma_none_usable(l, k);
            lemma_allocations_none(l, k, n);
        }
    }
}

/// With a single area that starts at address 0 and whose length `len` is a
/// whole number of frames, and no excluded frame inside it, allocations from
/// a fresh cursor return frames 0, 1, 2, ... in order until the area's
/// `len / 4096` frames run out, and `None` afterwards.
pub proof fn law_single_area_in_order(l: FrameLayout, len: u64, n: nat)
    requires
        l.areas == seq![MemoryArea { base_addr: 0, length: len }],
        len >= 1,
        len % 4096 == 0,
        forall|f: int| 0 <= f < len / 4096 ==> !#[trigger] l.is_excluded(f),
    ensures
        l.allocations(0, n) == Seq::new(
            n,
            |i: int| if i < len / 4096 { Some(i) } else { None },
        ),
{
    let m = len as int / 4096;
    let area = l.areas[0];
    assert(area.last_frame() == m - 1) by {
        vstd::arithmetic::div_mod::lemma_fundamental_div_mod(len as int, 4096);
        assert((4096 * m - 1) / 4096 == m - 1) by (nonlinear_arith)
            requires
                m >= 1,
        ;
    }
    assert(area.start_frame() == 0);
    assert forall|f: int| #[trigger] l.usable(f) <==> 0 <= f < m by {
        if 0 <= f < m {
            assert(l.areas[0].holds(f));
        }
    }
    lemma_frame_of_ordered(0, u64::MAX as int);
    lemma_frame_of_ordered(len as int - 1, u64::MAX as int);
    lemma_in_order(l, m, 0, n);
    assert(l.allocations(0, n) =~= Seq::new(n, |i: int| if i < len / 4096 { Some(i) } else { None }));
}

/// The first usable frame at or above `from` is the start frame `s` of area
/// `k` when no area holds a frame in `from..s` and `s` is not excluded.
proof fn lemma_lands_on_area_start(l: FrameLayout, from: int, k: int)
    requires
        l.wf(),
        0 <= k < l.areas.len(),
        from <= l.areas[k].start_frame() <= l.areas[k].last_frame(),
        !l.is_excluded(l.areas[k].start_frame()),
        forall|g: int| from <= g < l.areas[k].start_frame() ==> !#[trigger] l.in_some_area(g),
    ensures
        l.first_usable_from(from) == Some(l.areas[k].start_frame()),
{
    let s = l.areas[k].start_frame();
    assert(l.areas[k].holds(s));
    assert(l.usable(s));
    lemma_areas_below_limit(l, s);
    lemma_skip_unusable(l, from, s);
}

/// Of two disjoint areas, the second above the first, once the cursor has
/// passed the first area the next frame handed out is the second area's
/// start frame: the frames of the gap are never handed out.
pub proof fn law_gap_skipped(l: FrameLayout, from: int)
    requires
        l.wf(),
        l.areas.len() == 2,
        l.areas[0].last_frame() < l.areas[1].start_frame() <= l.areas[1].last_frame(),
        l.areas[0].last_frame() < from <= l.areas[1].start_frame(),
        !l.is_excluded(l.areas[1].start_frame()),
    ensures
        l.first_usable_from(from) == Some(l.areas[1].start_frame()),
        forall|g: int|
            l.areas[0].last_frame() < g < l.areas[1].start_frame() ==> !#[trigger] l.usable(g),
{
    assert forall|g: int|
        l.areas[0].last_frame() < g < l.areas[1].start_frame() implies !#[trigger] l.in_some_area(
        g,
    ) by {
        if l.in_some_area(g) {
            let k = choose|k: int| 0 <= k < l.areas.len() && #[trigger] l.areas[k].holds(g);
            assert(k == 0 || k == 1);
        }
    }
    lemma_lands_on_area_start(l, from, 1);
}

/// When no area starts below area `k`, which is not empty, and its start
/// frame is not excluded, the first allocation from a fresh cursor returns
/// exactly that start frame.
pub proof fn law_first_allocation_at_area_start(l: FrameLayout, k: int)
    requires
        l.wf(),
        0 <= k < l.areas.len(),
        l.areas[k].start_frame() <= l.areas[k].last_frame(),
        forall|j: int|
            0 <= j < l.areas.len() ==> l.areas[k].start_frame() <= #[trigger] l.areas[j].start_frame(),
        !l.is_excluded(l.areas[k].start_frame()),
    ensures
        l.first_usable_from(0) == Some(l.areas[k].start_frame()),
{
    lemma_frame_of_ordered(0, l.areas[k].base_addr as int);
    assert forall|g: int| 0 <= g < l.areas[k].start_frame() implies !#[trigger] l.in_some_area(g) by {
        if l.in_some_area(g) {
            let j = choose|j: int| 0 <= j < l.areas.len() && #[trigger] l.areas[j].holds(g);
            assert(l.areas[k].start_frame() <= l.areas[j].start_frame());
        }
    }
    lemma_lands_on_area_start(l, 0, k);
}

/// Exclusion ranges that hold no frame of any area take nothing away:
/// exactly the frames of the areas are usable.
pub proof fn law_exclusions_outside_areas(l: FrameLayout)
    requires
        forall|f: int| #[trigger] l.in_some_area(f) ==> !l.is_excluded(f),
    ensures
        forall|f: int| #[trigger] l.usable(f) == l.in_some_area(f),
{
}

} // verus!
