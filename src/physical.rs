//! Bitmap allocator of physical frames.
//!
//! Bit `k` of the bitmap (byte `k / 8`, bit `k % 8`) stands for the frame
//! that starts at `k * 4096`: 0 means free, 1 allocated or reserved.

use crate::multiboot2::{parse_memory_map, BootInfo, MemoryMapEntry, MemoryType};
use vstd::prelude::*;

verus! {

/// Largest amount of physical memory the allocator tracks (16 GiB).
pub const MAX_PHYSICAL_MEMORY: u64 = 0x4_0000_0000;

/// Largest number of frames the allocator tracks.
pub const MAX_FRAMES: usize = 0x40_0000;

/// Whether frame `k` is marked in the bitmap `bm`.
pub open spec fn bit_of(bm: Seq<u8>, k: int) -> bool {
    bm[k / 8] & (1u8 << ((k % 8) as u8)) != 0
}

/// Number of free (false) entries in `s`.
pub open spec fn count_free(s: Seq<bool>) -> nat
    decreases s.len(),
{
    if s.len() == 0 {
        0
    } else {
        count_free(s.drop_last()) + if s.last() {
            0nat
        } else {
            1nat
        }
    }
}

proof fn lemma_count_free_bound(s: Seq<bool>)
    ensures
        count_free(s) <= s.len(),
    decreases s.len(),
{
    if s.len() > 0 {
        lemma_count_free_bound(s.drop_last());
    }
}

proof fn lemma_count_free_update(s: Seq<bool>, k: int, b: bool)
    requires
        0 <= k < s.len(),
    ensures
        count_free(s.update(k, b)) + (if s[k] {
            0int
        } else {
            1int
        }) == count_free(s) + (if b {
            0int
        } else {
            1int
        }),
    decreases s.len(),
{
    let t = s.update(k, b);
    if k == s.len() - 1 {
        assert(t.drop_last() =~= s.drop_last());
    } else {
        assert(t.drop_last() =~= s.drop_last().update(k, b));
        lemma_count_free_update(s.drop_last(), k, b);
    }
}

proof fn lemma_byte_bits(b: u8, j: u8, i: u8)
    requires
        j < 8,
        i < 8,
    ensures
        ((b | (1u8 << j)) & (1u8 << i) != 0) == (i == j || b & (1u8 << i) != 0),
        ((b & !(1u8 << j)) & (1u8 << i) != 0) == (i != j && b & (1u8 << i) != 0),
{
    assert(((b | (1u8 << j)) & (1u8 << i) != 0) == (i == j || b & (1u8 << i) != 0))
        by (bit_vector)
        requires
            j < 8,
            i < 8,
    ;
    assert(((b & !(1u8 << j)) & (1u8 << i) != 0) == (i != j && b & (1u8 << i) != 0))
        by (bit_vector)
        requires
            j < 8,
            i < 8,
    ;
}

/// Frame `k` is where a first-fit scan that starts at `hint` and wraps
/// around once stops: every frame it passes before `k` is allocated.
pub open spec fn first_fit(frames: Seq<bool>, hint: int, k: int) -> bool {
    if k >= hint {
        forall|j: int| hint <= j < k ==> #[trigger] frames[j]
    } else {
        &&& forall|j: int| hint <= j < frames.len() ==> #[trigger] frames[j]
        &&& forall|j: int| 0 <= j < k ==> #[trigger] frames[j]
    }
}

proof fn lemma_no_free_count_zero(s: Seq<bool>)
    requires
        forall|k: int| 0 <= k < s.len() ==> #[trigger] s[k],
    ensures
        count_free(s) == 0,
    decreases s.len(),
{
    if s.len() > 0 {
        let t = s.drop_last();
        assert forall|k: int| 0 <= k < t.len() implies #[trigger] t[k] by {
            assert(t[k] == s[k]);
        }
        lemma_no_free_count_zero(t);
    }
}

/// Frames `s .. s + n` all exist and are free.
pub open spec fn run_free(frames: Seq<bool>, s: int, n: int) -> bool {
    &&& 0 <= s
    &&& s + n <= frames.len()
    &&& forall|j: int| s <= j < s + n ==> !#[trigger] frames[j]
}

/// `frames` with the entries in `s .. e` replaced by `b`.
pub open spec fn set_range(frames: Seq<bool>, s: int, e: int, b: bool) -> Seq<bool> {
    Seq::new(frames.len(), |j: int| if s <= j < e { b } else { frames[j] })
}

/// Number of allocated (true) entries in `s`.
pub open spec fn count_allocated(s: Seq<bool>) -> nat
    decreases s.len(),
{
    if s.len() == 0 {
        0
    } else {
        count_allocated(s.drop_last()) + if s.last() {
            1nat
        } else {
            0nat
        }
    }
}

proof fn lemma_counts_sum(s: Seq<bool>)
    ensures
        count_free(s) + count_allocated(s) == s.len(),
    decreases s.len(),
{
    if s.len() > 0 {
        lemma_counts_sum(s.drop_last());
    }
}

/// `x / 4096`, rounded up.
pub open spec fn frames_to_cover(x: int) -> int {
    (x + 4095) / 4096
}

/// Frame `k` overlaps the byte range `start .. end`, the range rounded
/// outward to whole frames.
pub open spec fn span_covers(start: int, end: int, k: int) -> bool {
    start / 4096 <= k < frames_to_cover(end)
}

/// End of a region, capped at the largest amount of memory tracked.
pub open spec fn capped_end(e: MemoryMapEntry) -> int {
    let end = e.base_addr + e.length;
    if end < MAX_PHYSICAL_MEMORY {
        end
    } else {
        MAX_PHYSICAL_MEMORY as int
    }
}

/// The highest capped end among the regions (0 when there is none).
pub open spec fn highest_end(regions: Seq<MemoryMapEntry>) -> int
    decreases regions.len(),
{
    if regions.len() == 0 {
        0
    } else {
        let rest = highest_end(regions.drop_last());
        let e = capped_end(regions.last());
        if e > rest {
            e
        } else {
            rest
        }
    }
}

/// Some Available region among the first `n` covers frame `k`.
pub open spec fn freed_by(regions: Seq<MemoryMapEntry>, n: int, k: int) -> bool {
    exists|i: int|
        0 <= i < n && (#[trigger] regions[i]).mem_type == 1 && span_covers(
            regions[i].base_addr as int,
            regions[i].base_addr + regions[i].length,
            k,
        )
}

/// Where the bitmap is placed: the first page boundary at or after the end
/// of the kernel image.
pub open spec fn bitmap_start(kernel_end: int) -> int {
    frames_to_cover(kernel_end) * 4096
}

/// Bytes of a bitmap for `total` frames.
pub open spec fn bitmap_bytes(total: int) -> int {
    (total + 7) / 8
}

/// After setup, frame `k` is reserved unless an Available region covers
/// it, and it is reserved whenever the kernel image or the bitmap overlaps
/// it.
pub open spec fn reserved_at_init(
    regions: Seq<MemoryMapEntry>,
    kernel_start: int,
    kernel_end: int,
    total: int,
    k: int,
) -> bool {
    let bs = bitmap_start(kernel_end);
    ||| !freed_by(regions, regions.len() as int, k)
    ||| span_covers(kernel_start, kernel_end, k)
    ||| span_covers(bs, bs + bitmap_bytes(total), k)
}

/// The regions of the memory map in the blob `b` (none when it has none).
pub open spec fn boot_regions(b: Seq<u8>) -> Seq<MemoryMapEntry> {
    match parse_memory_map(b) {
        Some(s) => s,
        None => Seq::empty(),
    }
}

/// The lowest index in `s .. e` of an allocated frame, if there is one.
pub open spec fn first_allocated(frames: Seq<bool>, s: int, e: int) -> Option<int>
    decreases e - s,
{
    if s >= e || s >= frames.len() || s < 0 {
        None
    } else if frames[s] {
        Some(s)
    } else {
        first_allocated(frames, s + 1, e)
    }
}

proof fn lemma_first_allocated_at_least(frames: Seq<bool>, s: int, e: int)
    ensures
        first_allocated(frames, s, e) matches Some(k) ==> s <= k,
    decreases e - s,
{
    if !(s >= e || s >= frames.len() || s < 0) && !frames[s] {
        lemma_first_allocated_at_least(frames, s + 1, e);
    }
}

/// The hint after freeing the frames `s .. e`: lowered to the first frame
/// that was allocated there, if that is below it.
pub open spec fn hint_after_free(frames: Seq<bool>, hint: nat, s: int, e: int) -> nat {
    match first_allocated(frames, s, e) {
        Some(k) => if k < hint {
            k as nat
        } else {
            hint
        },
        None => hint,
    }
}

/// Allocator of 4 KiB physical frames over a bitmap, with a search hint.
pub struct BitmapAllocator {
    bitmap: Vec<u8>,
    total_frames: usize,
    free_frames: usize,
    start_frame: usize,
}

impl BitmapAllocator {
    /// Frames tracked.
    pub closed spec fn total(self) -> nat {
        self.total_frames as nat
    }

    /// For each tracked frame, whether it is allocated (or reserved).
    pub closed spec fn frames(self) -> Seq<bool> {
        Seq::new(self.total_frames as nat, |k: int| bit_of(self.bitmap@, k))
    }

    /// The counter of free frames.
    pub closed spec fn free_count(self) -> nat {
        self.free_frames as nat
    }

    /// Where the next single-frame search starts.
    pub closed spec fn hint(self) -> nat {
        self.start_frame as nat
    }

    closed spec fn shape(self) -> bool {
        &&& self.total_frames <= MAX_FRAMES
        &&& self.bitmap@.len() * 8 >= self.total_frames
        &&& self.start_frame <= self.total_frames
    }

    /// The bitmap covers every tracked frame, the hint lies within them, and
    /// the counter equals the number of free frames.
    pub closed spec fn wf(self) -> bool {
        &&& self.shape()
        &&& self.free_frames == count_free(self.frames())
    }

    /// Facts that callers may rely on for a well-formed allocator.
    pub proof fn lemma_wf(self)
        requires
            self.wf(),
        ensures
            self.frames().len() == self.total(),
            self.total() <= MAX_FRAMES,
            self.hint() <= self.total(),
            self.free_count() == count_free(self.frames()),
            self.free_count() <= self.total(),
    {
        lemma_count_free_bound(self.frames());
    }

    /// An allocator that tracks no frame.
    pub fn new() -> (r: BitmapAllocator)
        ensures
            r.wf(),
            r.total() == 0,
            r.hint() == 0,
    {
        let r = BitmapAllocator { bitmap: Vec::new(), total_frames: 0, free_frames: 0, start_frame: 0 };
        assert(r.frames() =~= Seq::<bool>::empty());
        r
    }

    /// Whether `frame` is tracked and free.
    fn is_frame_free(&self, frame: usize) -> (r: bool)
        requires
            self.shape(),
        ensures
            r == (frame < self.total_frames && !self.frames()[frame as int]),
    {
        if frame >= self.total_frames {
            return false;
        }
        let byte_index = frame / 8;
        let bit_index = (frame % 8) as u8;
        let mask: u8 = 1u8 << bit_index;
        (self.bitmap[byte_index] & mask) == 0
    }

    /// Sets the bit of `frame`, if it is tracked; the counter is left alone.
    fn mark_frame_allocated(&mut self, frame: usize)
        requires
            old(self).shape(),
        ensures
            final(self).shape(),
            final(self).total_frames == old(self).total_frames,
            final(self).free_frames == old(self).free_frames,
            final(self).start_frame == old(self).start_frame,
            final(self).frames() == if frame < old(self).total_frames {
                old(self).frames().update(frame as int, true)
            } else {
                old(self).frames()
            },
    {
        if frame >= self.total_frames {
            return;
        }
        let byte_index = frame / 8;
        let bit_index = (frame % 8) as u8;
        let mask: u8 = 1u8 << bit_index;
        let b = self.bitmap[byte_index];
        self.bitmap.set(byte_index, b | mask);
        proof {
            assert forall|k: int| 0 <= k < self.total_frames implies #[trigger] bit_of(
                self.bitmap@,
                k,
            ) == (k == frame || bit_of(old(self).bitmap@, k)) by {
                if k / 8 == byte_index as int {
                    lemma_byte_bits(b, bit_index, (k % 8) as u8);
                }
            }
            assert(self.frames() =~= old(self).frames().update(frame as int, true));
        }
    }

    /// Clears the bit of `frame`, if it is tracked, and says whether it was
    /// set; the counter is left alone.
    fn mark_frame_free(&mut self, frame: usize) -> (r: bool)
        requires
            old(self).shape(),
        ensures
            final(self).shape(),
            final(self).total_frames == old(self).total_frames,
            final(self).free_frames == old(self).free_frames,
            final(self).start_frame == old(self).start_frame,
            r == (frame < old(self).total_frames && old(self).frames()[frame as int]),
            final(self).frames() == if frame < old(self).total_frames {
                old(self).frames().update(frame as int, false)
            } else {
                old(self).frames()
            },
    {
        if frame >= self.total_frames {
            return false;
        }
        let byte_index = frame / 8;
        let bit_index = (frame % 8) as u8;
        let mask: u8 = 1u8 << bit_index;
        let b = self.bitmap[byte_index];
        let was_allocated = (b & mask) != 0;
        self.bitmap.set(byte_index, b & !mask);
        proof {
            assert forall|k: int| 0 <= k < self.total_frames implies #[trigger] bit_of(
                self.bitmap@,
                k,
            ) == (k != frame && bit_of(old(self).bitmap@, k)) by {
                if k / 8 == byte_index as int {
                    lemma_byte_bits(b, bit_index, (k % 8) as u8);
                }
            }
            assert(self.frames() =~= old(self).frames().update(frame as int, false));
        }
        was_allocated
    }

    /// Marks free frame `frame` allocated and moves the hint past it.
    fn take_frame(&mut self, frame: usize)
        requires
            old(self).wf(),
            frame < old(self).total_frames,
            !old(self).frames()[frame as int],
        ensures
            final(self).wf(),
            final(self).total() == old(self).total(),
            final(self).frames() == old(self).frames().update(frame as int, true),
            final(self).free_count() == old(self).free_count() - 1,
            final(self).hint() == frame + 1,
    {
        proof {
            lemma_count_free_update(self.frames(), frame as int, true);
        }
        self.mark_frame_allocated(frame);
        self.free_frames = self.free_frames - 1;
        self.start_frame = frame + 1;
    }

    /// Allocates one frame: the first free frame at or after the hint, or
    /// else the first free frame before it. Returns its start address.
    pub fn allocate_frame(&mut self) -> (r: Option<u64>)
        requires
            old(self).wf(),
        ensures
            final(self).wf(),
            final(self).total() == old(self).total(),
            match r {
                None => {
                    &&& count_free(old(self).frames()) == 0
                    &&& forall|k: int| 0 <= k < old(self).total() ==> #[trigger] old(self).frames()[k]
                    &&& final(self).frames() == old(self).frames()
                    &&& final(self).hint() == old(self).hint()
                },
                Some(a) => {
                    let k = a / 4096;
                    &&& a % 4096 == 0
                    &&& k < old(self).total()
                    &&& !old(self).frames()[k as int]
                    &&& first_fit(old(self).frames(), old(self).hint() as int, k as int)
                    &&& final(self).frames() == old(self).frames().update(k as int, true)
                    &&& final(self).free_count() == old(self).free_count() - 1
                    &&& final(self).hint() == k + 1
                },
            },
    {
        let hint = self.start_frame;
        let total = self.total_frames;
        let mut frame: usize = hint;
        while frame < total
            invariant
                self.wf(),
                *self == *old(self),
                hint == self.start_frame,
                total == self.total_frames,
                hint <= frame <= total,
                forall|j: int| hint <= j < frame ==> #[trigger] self.frames()[j],
            decreases total - frame,
        {
            if self.is_frame_free(frame) {
                self.take_frame(frame);
                return Some(frame as u64 * 4096);
            }
            frame = frame + 1;
        }
        frame = 0;
        while frame < hint
            invariant
                self.wf(),
                *self == *old(self),
                hint == self.start_frame,
                total == self.total_frames,
                hint <= total,
                frame <= hint,
                forall|j: int| hint <= j < total ==> #[trigger] self.frames()[j],
                forall|j: int| 0 <= j < frame ==> #[trigger] self.frames()[j],
            decreases hint - frame,
        {
            if self.is_frame_free(frame) {
                self.take_frame(frame);
                return Some(frame as u64 * 4096);
            }
            frame = frame + 1;
        }
        proof {
            assert forall|k: int| 0 <= k < total implies #[trigger] self.frames()[k] by {}
            if count_free(self.frames()) != 0 {
                lemma_count_free_bound(self.frames());
                let s = self.frames();
                assert(forall|k: int| 0 <= k < s.len() ==> s[k]);
                lemma_no_free_count_zero(s);
            }
        }
        None
    }

    /// Allocates `count` contiguous frames: the run of free frames with the
    /// lowest start. One frame is allocated as `allocate_frame` does.
    pub fn allocate_frames(&mut self, count: usize) -> (r: Option<u64>)
        requires
            old(self).wf(),
        ensures
            final(self).wf(),
            final(self).total() == old(self).total(),
            count == 0 ==> r is None && *final(self) == *old(self),
            count == 1 ==> match r {
                None => {
                    &&& count_free(old(self).frames()) == 0
                    &&& final(self).frames() == old(self).frames()
                    &&& final(self).hint() == old(self).hint()
                },
                Some(a) => {
                    let k = a / 4096;
                    &&& a % 4096 == 0
                    &&& k < old(self).total()
                    &&& !old(self).frames()[k as int]
                    &&& first_fit(old(self).frames(), old(self).hint() as int, k as int)
                    &&& final(self).frames() == old(self).frames().update(k as int, true)
                    &&& final(self).free_count() == old(self).free_count() - 1
                    &&& final(self).hint() == k + 1
                },
            },
            count >= 2 ==> match r {
                None => {
                    &&& forall|s: int| !run_free(old(self).frames(), s, count as int)
                    &&& *final(self) == *old(self)
                },
                Some(a) => {
                    let k = a / 4096;
                    &&& a % 4096 == 0
                    &&& run_free(old(self).frames(), k as int, count as int)
                    &&& forall|s: int| 0 <= s < k ==> !run_free(old(self).frames(), s, count as int)
                    &&& final(self).frames() == set_range(
                        old(self).frames(),
                        k as int,
                        k + count,
                        true,
                    )
                    &&& final(self).free_count() == old(self).free_count() - count
                    &&& final(self).hint() == k + count
                },
            },
    {
        if count == 0 {
            return None;
        }
        if count == 1 {
            return self.allocate_frame();
        }
        let total = self.total_frames;
        let mut consecutive: usize = 0;
        let mut start_frame: usize = 0;
        let mut frame: usize = 0;
        while frame < total
            invariant
                self.wf(),
                *self == *old(self),
                total == self.total_frames,
                count >= 2,
                frame <= total,
                consecutive < count,
                consecutive <= frame,
                start_frame == frame - consecutive,
                forall|j: int| start_frame <= j < frame ==> !#[trigger] self.frames()[j],
                start_frame > 0 ==> self.frames()[start_frame - 1],
                forall|s: int|
                    0 <= s && s + count <= frame ==> !run_free(self.frames(), s, count as int),
            decreases total - frame,
        {
            let ghost fr = self.frames();
            if self.is_frame_free(frame) {
                if consecutive == 0 {
                    start_frame = frame;
                }
                consecutive = consecutive + 1;
                if consecutive == count {
                    proof {
                        assert(run_free(fr, start_frame as int, count as int));
                    }
                    self.take_range(start_frame, count);
                    return Some(start_frame as u64 * 4096);
                }
                proof {
                    assert forall|s: int|
                        0 <= s && s + count <= frame + 1 implies !run_free(fr, s, count as int) by {
                        if s + count == frame + 1 {
                            assert(s <= start_frame - 1 < s + count);
                            assert(fr[start_frame - 1]);
                        }
                    }
                }
            } else {
                proof {
                    assert forall|s: int|
                        0 <= s && s + count <= frame + 1 implies !run_free(fr, s, count as int) by {
                        if s + count == frame + 1 {
                            assert(fr[frame as int]);
                        }
                    }
                }
                consecutive = 0;
                start_frame = frame + 1;
            }
            frame = frame + 1;
        }
        proof {
            assert forall|s: int| !run_free(self.frames(), s, count as int) by {}
        }
        None
    }

    /// Marks the free run `start .. start + count` allocated and moves the
    /// hint past it.
    fn take_range(&mut self, start: usize, count: usize)
        requires
            old(self).wf(),
            run_free(old(self).frames(), start as int, count as int),
        ensures
            final(self).wf(),
            final(self).total() == old(self).total(),
            final(self).frames() == set_range(
                old(self).frames(),
                start as int,
                start + count,
                true,
            ),
            final(self).free_count() == old(self).free_count() - count,
            final(self).hint() == start + count,
    {
        let end = start + count;
        let mut f: usize = start;
        while f < end
            invariant
                self.shape(),
                start <= f <= end,
                end == start + count,
                run_free(old(self).frames(), start as int, count as int),
                end <= self.total_frames,
                self.total_frames == old(self).total_frames,
                self.free_frames == old(self).free_frames,
                self.start_frame == old(self).start_frame,
                self.frames() == set_range(old(self).frames(), start as int, f as int, true),
                count_free(self.frames()) + (f - start) == count_free(old(self).frames()),
            decreases end - f,
        {
            proof {
                assert(self.frames()[f as int] == old(self).frames()[f as int]);
                assert(!self.frames()[f as int]);
                lemma_count_free_update(self.frames(), f as int, true);
            }
            self.mark_frame_allocated(f);
            proof {
                assert(self.frames() =~= set_range(
                    old(self).frames(),
                    start as int,
                    f + 1,
                    true,
                ));
            }
            f = f + 1;
        }
        self.free_frames = self.free_frames - count;
        self.start_frame = end;
    }

    /// Frees the frame that starts at `phys_addr`, if it is tracked and
    /// allocated, and lowers the hint to it.
    pub fn free_frame(&mut self, phys_addr: u64)
        requires
            old(self).wf(),
        ensures
            final(self).wf(),
            final(self).total() == old(self).total(),
            ({
                let k = phys_addr / 4096;
                if k < old(self).total() && old(self).frames()[k as int] {
                    &&& final(self).frames() == old(self).frames().update(k as int, false)
                    &&& final(self).free_count() == old(self).free_count() + 1
                    &&& final(self).hint() == if k < old(self).hint() {
                        k as nat
                    } else {
                        old(self).hint()
                    }
                } else {
                    *final(self) == *old(self)
                }
            }),
    {
        let frame64 = phys_addr / 4096;
        if frame64 >= self.total_frames as u64 {
            return;
        }
        let frame = frame64 as usize;
        if !self.is_frame_free(frame) {
            proof {
                lemma_count_free_update(self.frames(), frame as int, false);
                lemma_count_free_bound(self.frames().update(frame as int, false));
            }
            self.mark_frame_free(frame);
            self.free_frames = self.free_frames + 1;
            if frame < self.start_frame {
                self.start_frame = frame;
            }
        }
    }

    /// Frees the tracked frames among the `count` frames from `phys_addr` on,
    /// as `free_frame` does each of them: frames already free stay free and
    /// are not counted twice.
    pub fn free_frames(&mut self, phys_addr: u64, count: usize)
        requires
            old(self).wf(),
        ensures
            final(self).wf(),
            final(self).total() == old(self).total(),
            ({
                let k = phys_addr / 4096;
                &&& final(self).frames() == set_range(old(self).frames(), k as int, k + count, false)
                &&& final(self).hint() == hint_after_free(
                    old(self).frames(),
                    old(self).hint(),
                    k as int,
                    k + count,
                )
            }),
    {
        let first64 = phys_addr / 4096;
        let total = self.total_frames;
        if first64 >= total as u64 {
            proof {
                self.lemma_wf();
                assert(first_allocated(self.frames(), first64 as int, first64 + count) is None);
                assert(self.frames() =~= set_range(
                    self.frames(),
                    first64 as int,
                    first64 + count,
                    false,
                ));
            }
            return;
        }
        let first = first64 as usize;
        let mut i: usize = 0;
        let ghost fr = self.frames();
        let ghost h = self.hint();
        while i < count && first + i < total
            invariant
                self.wf(),
                first < total,
                first + i <= total,
                i <= count,
                total == self.total_frames,
                fr == old(self).frames(),
                h == old(self).hint(),
                self.frames() == set_range(old(self).frames(), first as int, first + i, false),
                hint_after_free(fr, h, first as int, first + count) == hint_after_free(
                    fr,
                    self.hint(),
                    first + i,
                    first + count,
                ),
            decreases count - i,
        {
            let frame = first + i;
            proof {
                assert(self.frames()[frame as int] == fr[frame as int]);
                lemma_first_allocated_at_least(fr, frame + 1, first + count);
            }
            if !self.is_frame_free(frame) {
                proof {
                    lemma_count_free_update(self.frames(), frame as int, false);
                    lemma_count_free_bound(self.frames().update(frame as int, false));
                }
                self.mark_frame_free(frame);
                self.free_frames = self.free_frames + 1;
                if frame < self.start_frame {
                    self.start_frame = frame;
                }
            }
            proof {
                assert(self.frames() =~= set_range(
                    old(self).frames(),
                    first as int,
                    first + i + 1,
                    false,
                ));
            }
            i = i + 1;
        }
        proof {
            assert(self.frames() =~= set_range(
                old(self).frames(),
                first as int,
                first + count,
                false,
            ));
            assert(first_allocated(fr, first + i, first + count) is None);
        }
    }

    /// Total, free and allocated frames.
    pub fn stats(&self) -> (r: (usize, usize, usize))
        requires
            self.wf(),
        ensures
            r == (self.total() as usize, self.free_count() as usize, (self.total()
                - self.free_count()) as usize),
    {
        (self.total_frames(), self.get_free_frames(), self.allocated_frames())
    }

    /// Counts the free frames by scanning the bitmap.
    fn count_free_frames(&self) -> (r: usize)
        requires
            self.shape(),
        ensures
            r == count_free(self.frames()),
    {
        let mut count: usize = 0;
        let mut frame: usize = 0;
        while frame < self.total_frames
            invariant
                self.shape(),
                frame <= self.total_frames,
                count == count_free(self.frames().take(frame as int)),
                count <= frame,
            decreases self.total_frames - frame,
        {
            let ghost s = self.frames();
            proof {
                assert(s.take(frame + 1).drop_last() =~= s.take(frame as int));
            }
            if self.is_frame_free(frame) {
                count = count + 1;
            }
            frame = frame + 1;
        }
        proof {
            assert(self.frames().take(frame as int) =~= self.frames());
        }
        count
    }

    /// The number of free frames.
    pub fn get_free_frames(&self) -> (r: usize)
        ensures
            r == self.free_count(),
    {
        self.free_frames
    }

    /// The number of frames tracked.
    pub fn total_frames(&self) -> (r: usize)
        ensures
            r == self.total(),
    {
        self.total_frames
    }

    /// The number of frames allocated or reserved.
    pub fn allocated_frames(&self) -> (r: usize)
        requires
            self.wf(),
        ensures
            r == self.total() - self.free_count(),
            r == count_allocated(self.frames()),
    {
        proof {
            lemma_count_free_bound(self.frames());
            lemma_counts_sum(self.frames());
        }
        self.total_frames - self.free_frames
    }

    /// Sets up the allocator from the boot memory map: it tracks the frames
    /// below the highest region end (at most 16 GiB), places its bitmap after
    /// the kernel image, frees the frames of Available regions, and reserves
    /// the kernel image and the bitmap.
    pub fn init(&mut self, boot_info: &BootInfo, kernel_start: usize, kernel_end: usize)
        requires
            kernel_end + 2 * 4096 + MAX_FRAMES / 8 <= usize::MAX,
        ensures
            final(self).wf(),
            final(self).total() == highest_end(boot_regions(boot_info@)) / 4096,
            final(self).hint() == 0,
            forall|k: int|
                0 <= k < final(self).total() ==> #[trigger] final(self).frames()[k]
                    == reserved_at_init(
                    boot_regions(boot_info@),
                    kernel_start as int,
                    kernel_end as int,
                    final(self).total() as int,
                    k,
                ),
    {
        let regions = match boot_info.memory_map() {
            Some(it) => it.to_vec(),
            None => Vec::new(),
        };
        self.init_from_regions(&regions, kernel_start, kernel_end);
    }

    /// Sets up the allocator from the memory regions `regions`, as `init`
    /// does from the boot memory map.
    pub fn init_from_regions(
        &mut self,
        regions: &Vec<MemoryMapEntry>,
        kernel_start: usize,
        kernel_end: usize,
    )
        requires
            kernel_end + 2 * 4096 + MAX_FRAMES / 8 <= usize::MAX,
        ensures
            final(self).wf(),
            final(self).total() == highest_end(regions@) / 4096,
            final(self).hint() == 0,
            forall|k: int|
                0 <= k < final(self).total() ==> #[trigger] final(self).frames()[k]
                    == reserved_at_init(
                    regions@,
                    kernel_start as int,
                    kernel_end as int,
                    final(self).total() as int,
                    k,
                ),
    {
        let mut highest: u64 = 0;
        let mut i: usize = 0;
        while i < regions.len()
            invariant
                i <= regions.len(),
                highest == highest_end(regions@.take(i as int)),
                highest <= MAX_PHYSICAL_MEMORY,
            decreases regions.len() - i,
        {
            let e = regions[i];
            let end: u64 = if e.base_addr >= MAX_PHYSICAL_MEMORY || e.length >= MAX_PHYSICAL_MEMORY
                - e.base_addr {
                MAX_PHYSICAL_MEMORY
            } else {
                e.base_addr + e.length
            };
            if end > highest {
                highest = end;
            }
            proof {
                assert(regions@.take(i + 1).drop_last() =~= regions@.take(i as int));
            }
            i = i + 1;
        }
        proof {
            assert(regions@.take(i as int) =~= regions@);
        }
        let total = (highest / 4096) as usize;
        let bytes = (total + 7) / 8;
        let start = (kernel_end + 4095) / 4096 * 4096;
        let mut bitmap: Vec<u8> = Vec::with_capacity(bytes);
        let mut n: usize = 0;
        while n < bytes
            invariant
                n <= bytes,
                bitmap@.len() == n,
                forall|j: int| 0 <= j < n ==> #[trigger] bitmap@[j] == 0xFF,
            decreases bytes - n,
        {
            bitmap.push(0xFF);
            n = n + 1;
        }
        self.bitmap = bitmap;
        self.total_frames = total;
        self.free_frames = 0;
        self.start_frame = 0;
        proof {
            assert forall|k: int| 0 <= k < total implies #[trigger] self.frames()[k] by {
                let b = self.bitmap@[k / 8];
                let j = (k % 8) as u8;
                assert(b == 0xFF);
                assert(0xFFu8 & (1u8 << j) != 0) by (bit_vector)
                    requires
                        j < 8,
                ;
            }
        }
        let mut r: usize = 0;
        while r < regions.len()
            invariant
                self.shape(),
                self.total_frames == total,
                self.start_frame == 0,
                r <= regions.len(),
                forall|k: int|
                    0 <= k < total ==> #[trigger] self.frames()[k] == !freed_by(
                        regions@,
                        r as int,
                        k,
                    ),
            decreases regions.len() - r,
        {
            let e = regions[r];
            let ghost before = self.frames();
            let available = match MemoryType::from_u32(e.mem_type) {
                Some(MemoryType::Available) => true,
                _ => false,
            };
            if available {
                self.mark_region_free(e.base_addr, e.length);
            }
            proof {
                assert forall|k: int| 0 <= k < total implies #[trigger] self.frames()[k] == !freed_by(
                    regions@,
                    r + 1,
                    k,
                ) by {
                    let cov = e.mem_type == 1 && span_covers(
                        e.base_addr as int,
                        e.base_addr + e.length,
                        k,
                    );
                    assert(self.frames()[k] == (before[k] && !cov));
                    if freed_by(regions@, r as int, k) {
                        let w = choose|w: int|
                            0 <= w < r && (#[trigger] regions@[w]).mem_type == 1 && span_covers(
                                regions@[w].base_addr as int,
                                regions@[w].base_addr + regions@[w].length,
                                k,
                            );
                        assert(regions@[w] == regions@[w]);
                    }
                    if cov {
                        assert(regions@[r as int] == e);
                    }
                    if freed_by(regions@, r + 1, k) && !cov {
                        let w = choose|w: int|
                            0 <= w < r + 1 && (#[trigger] regions@[w]).mem_type == 1 && span_covers(
                                regions@[w].base_addr as int,
                                regions@[w].base_addr + regions@[w].length,
                                k,
                            );
                        assert(w != r);
                        assert(regions@[w] == regions@[w]);
                    }
                }
            }
            r = r + 1;
        }
        self.mark_region_reserved(kernel_start, kernel_end);
        self.mark_region_reserved(start, start + bytes);
        let free = self.count_free_frames();
        self.free_frames = free;
    }

    /// Frees the tracked frames that the region `base .. base + length`
    /// overlaps; the counter is left alone.
    fn mark_region_free(&mut self, base: u64, length: u64)
        requires
            old(self).shape(),
        ensures
            final(self).shape(),
            final(self).total_frames == old(self).total_frames,
            final(self).free_frames == old(self).free_frames,
            final(self).start_frame == old(self).start_frame,
            forall|k: int|
                0 <= k < old(self).total_frames ==> #[trigger] final(self).frames()[k] == (old(
                    self,
                ).frames()[k] && !span_covers(base as int, base + length, k)),
    {
        let total = self.total_frames;
        let first = base / 4096;
        let last: u64 = if length > u64::MAX - base {
            total as u64
        } else {
            let end = base + length;
            if end % 4096 == 0 {
                end / 4096
            } else {
                end / 4096 + 1
            }
        };
        let stop: u64 = if last < total as u64 {
            last
        } else {
            total as u64
        };
        if first >= stop {
            return;
        }
        let mut f: usize = first as usize;
        while f < stop as usize
            invariant
                self.shape(),
                self.total_frames == total,
                self.free_frames == old(self).free_frames,
                self.start_frame == old(self).start_frame,
                first <= f <= stop,
                stop <= total,
                forall|k: int|
                    0 <= k < total ==> #[trigger] self.frames()[k] == (old(self).frames()[k] && !(
                    first <= k < f)),
            decreases stop - f,
        {
            self.mark_frame_free(f);
            f = f + 1;
        }
    }

    /// Reserves the tracked frames that the range `start .. end` overlaps;
    /// the counter is left alone.
    fn mark_region_reserved(&mut self, start: usize, end: usize)
        requires
            old(self).shape(),
            end + 4095 <= usize::MAX,
        ensures
            final(self).shape(),
            final(self).total_frames == old(self).total_frames,
            final(self).free_frames == old(self).free_frames,
            final(self).start_frame == old(self).start_frame,
            forall|k: int|
                0 <= k < old(self).total_frames ==> #[trigger] final(self).frames()[k] == (old(
                    self,
                ).frames()[k] || span_covers(start as int, end as int, k)),
    {
        let total = self.total_frames;
        let first = start / 4096;
        let last = (end + 4095) / 4096;
        let stop = if last < total {
            last
        } else {
            total
        };
        let mut f: usize = first;
        while f < stop
            invariant
                self.shape(),
                self.total_frames == total,
                self.free_frames == old(self).free_frames,
                self.start_frame == old(self).start_frame,
                first <= f,
                f == first || f <= stop,
                stop <= total,
                total == old(self).total_frames,
                forall|k: int|
                    0 <= k < total ==> #[trigger] self.frames()[k] == (old(self).frames()[k] || (
                    first <= k < f)),
            decreases stop - f,
        {
            self.mark_frame_allocated(f);
            f = f + 1;
        }
    }
}

} // verus!

verus! {

/// The counter of free frames and the number of allocated frames add up to
/// the frames tracked.
pub proof fn lemma_conservation(a: BitmapAllocator)
    requires
        a.wf(),
    ensures
        a.free_count() + count_allocated(a.frames()) == a.total(),
{
    a.lemma_wf();
    lemma_counts_sum(a.frames());
}

/// The counter of free frames depends on nothing but which frames are
/// allocated: after allocations and frees that leave the same frames
/// allocated as before, it is back to its value before.
pub proof fn lemma_free_count_round_trip(before: BitmapAllocator, after: BitmapAllocator)
    requires
        before.wf(),
        after.wf(),
        before.frames() == after.frames(),
    ensures
        before.free_count() == after.free_count(),
{
}

} // verus!
