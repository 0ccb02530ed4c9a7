//! The physical page allocator: one bit per page frame, set while the
//! frame is in use.

use vstd::prelude::*;

verus! {

/// Size of a page frame in bytes.
pub const PAGE_SIZE: usize = 4096;

/// Largest number of page frames the allocator handles: the frames of
/// the whole 64-bit physical address range.
pub const MAX_PAGES: u64 = 0x10_0000_0000_0000;

/// A range of physical memory reported by the bootloader.
#[derive(Debug, Clone, Copy)]
pub struct MemoryRegion {
    /// First address of the range.
    pub base: u64,
    /// Length of the range in bytes.
    pub length: u64,
    /// Whether the range is free for use.
    pub usable: bool,
}

/// The allocator: the bitmap, the number of frames it covers, and the
/// number of frames that are free.
pub struct BitmapAllocator {
    pub bitmap: Vec<u8>,
    pub total_pages: usize,
    pub free_pages: usize,
}

/// Whether bit `i` of the bitmap is set.
pub open spec fn bit_set(bitmap: Seq<u8>, i: int) -> bool {
    bitmap[i / 8] & (1u8 << ((i % 8) as u8)) != 0
}

/// Number of clear bits among the first `n` bits of the bitmap.
pub open spec fn clear_below(bitmap: Seq<u8>, n: int) -> nat
    decreases n,
{
    if n <= 0 {
        0
    } else {
        clear_below(bitmap, n - 1) + if bit_set(bitmap, n - 1) {
            0nat
        } else {
            1nat
        }
    }
}

/// Setting a bit of a byte sets that bit and keeps the others.
pub proof fn lemma_byte_set(b: u8, i: u8, j: u8)
    requires
        i < 8,
        j < 8,
    ensures
        ((b | (1u8 << i)) & (1u8 << j) != 0) == (i == j || b & (1u8 << j) != 0),
{
    assert(((b | (1u8 << i)) & (1u8 << j) != 0) == (i == j || b & (1u8 << j) != 0))
        by (bit_vector)
        requires
            i < 8,
            j < 8,
    ;
}

/// Clearing a bit of a byte clears that bit and keeps the others.
pub proof fn lemma_byte_clear(b: u8, i: u8, j: u8)
    requires
        i < 8,
        j < 8,
    ensures
        ((b & !(1u8 << i)) & (1u8 << j) != 0) == (i != j && b & (1u8 << j) != 0),
{
    assert(((b & !(1u8 << i)) & (1u8 << j) != 0) == (i != j && b & (1u8 << j) != 0))
        by (bit_vector)
        requires
            i < 8,
            j < 8,
    ;
}

/// Every bit of a byte with all bits set is set.
pub proof fn lemma_byte_full(j: u8)
    requires
        j < 8,
    ensures
        0xFFu8 & (1u8 << j) != 0,
{
    assert(0xFFu8 & (1u8 << j) != 0) by (bit_vector)
        requires
            j < 8,
    ;
}

/// Bitmaps that agree on their first `n` bits have as many clear bits there.
pub proof fn lemma_clear_below_same(a: Seq<u8>, b: Seq<u8>, n: int)
    requires
        forall|j: int| 0 <= j < n ==> bit_set(a, j) == bit_set(b, j),
    ensures
        clear_below(a, n) == clear_below(b, n),
    decreases n,
{
    if n > 0 {
        lemma_clear_below_same(a, b, n - 1);
    }
}

/// Changing one bit changes the number of clear bits by one where the
/// bit lies among those counted.
pub proof fn lemma_clear_below_flip(a: Seq<u8>, b: Seq<u8>, i: int, n: int)
    requires
        0 <= i,
        forall|j: int| 0 <= j < n && j != i ==> bit_set(a, j) == bit_set(b, j),
        bit_set(a, i) != bit_set(b, i),
    ensures
        i >= n ==> clear_below(a, n) == clear_below(b, n),
        i < n && bit_set(a, i) ==> clear_below(b, n) == clear_below(a, n) + 1,
        i < n && !bit_set(a, i) ==> clear_below(a, n) == clear_below(b, n) + 1,
    decreases n,
{
    if n > 0 {
        if i == n - 1 {
            lemma_clear_below_same(a, b, n - 1);
        } else {
            lemma_clear_below_flip(a, b, i, n - 1);
        }
    }
}

/// When no bit among the first `n` is clear, none is counted, and when
/// one is, at least one is.
pub proof fn lemma_clear_below_bounds(a: Seq<u8>, n: int)
    ensures
        clear_below(a, n) <= (if n > 0 {
            n
        } else {
            0
        }),
        (forall|j: int| 0 <= j < n ==> bit_set(a, j)) ==> clear_below(a, n) == 0,
        (exists|j: int| 0 <= j < n && !bit_set(a, j)) ==> clear_below(a, n) >= 1,
    decreases n,
{
    if n > 0 {
        lemma_clear_below_bounds(a, n - 1);
        if exists|j: int| 0 <= j < n && !bit_set(a, j) {
            let j = choose|j: int| 0 <= j < n && !bit_set(a, j);
            if j < n - 1 {
                assert(exists|k: int| 0 <= k < n - 1 && !bit_set(a, k));
            }
        }
    }
}

impl BitmapAllocator {
    /// The bitmap has a bit for every frame, and the count of free frames
    /// is the number of clear bits.
    pub open spec fn wf(&self) -> bool {
        &&& self.total_pages <= MAX_PAGES
        &&& self.bitmap@.len() * 8 >= self.total_pages
        &&& self.free_pages == clear_below(self.bitmap@, self.total_pages as int)
    }

    /// Whether frame `page` is in use.
    pub open spec fn in_use(&self, page: int) -> bool {
        bit_set(self.bitmap@, page)
    }

    /// Sets bit `bit`; the count of free frames is not touched.
    pub fn set_bit(&mut self, bit: usize)
        requires
            bit < old(self).bitmap@.len() * 8,
        ensures
            final(self).total_pages == old(self).total_pages,
            final(self).free_pages == old(self).free_pages,
            final(self).bitmap@.len() == old(self).bitmap@.len(),
            forall|j: int|
                0 <= j < old(self).bitmap@.len() * 8 ==> bit_set(final(self).bitmap@, j) == (j == bit
                    || bit_set(old(self).bitmap@, j)),
    {
        let byte_idx: usize = bit / 8;
        let bit_idx: u8 = (bit % 8) as u8;
        let before: u8 = self.bitmap[byte_idx];
        self.bitmap[byte_idx] = before | (1u8 << bit_idx);
        proof {
            assert forall|j: int| 0 <= j < old(self).bitmap@.len() * 8 implies bit_set(self.bitmap@, j) == (j
                == bit || bit_set(old(self).bitmap@, j)) by {
                if j / 8 == byte_idx as int {
                    lemma_byte_set(before, bit_idx, (j % 8) as u8);
                }
            }
        }
    }

    /// Clears bit `bit`; the count of free frames is not touched.
    pub fn clear_bit(&mut self, bit: usize)
        requires
            bit < old(self).bitmap@.len() * 8,
        ensures
            final(self).total_pages == old(self).total_pages,
            final(self).free_pages == old(self).free_pages,
            final(self).bitmap@.len() == old(self).bitmap@.len(),
            forall|j: int|
                0 <= j < old(self).bitmap@.len() * 8 ==> bit_set(final(self).bitmap@, j) == (j != bit
                    && bit_set(old(self).bitmap@, j)),
    {
        let byte_idx: usize = bit / 8;
        let bit_idx: u8 = (bit % 8) as u8;
        let before: u8 = self.bitmap[byte_idx];
        self.bitmap[byte_idx] = before & !(1u8 << bit_idx);
        proof {
            assert forall|j: int| 0 <= j < old(self).bitmap@.len() * 8 implies bit_set(self.bitmap@, j) == (j
                != bit && bit_set(old(self).bitmap@, j)) by {
                if j / 8 == byte_idx as int {
                    lemma_byte_clear(before, bit_idx, (j % 8) as u8);
                }
            }
        }
    }

    /// Whether bit `bit` is set.
    pub fn test_bit(&self, bit: usize) -> (r: bool)
        requires
            bit < self.bitmap@.len() * 8,
        ensures
            r == bit_set(self.bitmap@, bit as int),
    {
        let byte_idx: usize = bit / 8;
        let bit_idx: u8 = (bit % 8) as u8;
        self.bitmap[byte_idx] & (1u8 << bit_idx) != 0
    }

    /// Whether taking a frame from this allocator may give `r` and leave
    /// it as `after`: the free frame with the lowest number is taken, its
    /// bit is set and no other bit changes, and the count of free frames
    /// falls by one; when every frame is in use there is none and nothing
    /// changes.
    pub open spec fn took(&self, r: Option<u64>, after: &Self) -> bool {
        &&& after.total_pages == self.total_pages
        &&& match r {
            Some(addr) => {
                let page = addr as int / 4096;
                &&& addr as int % 4096 == 0
                &&& 0 <= page < self.total_pages
                &&& !bit_set(self.bitmap@, page)
                &&& forall|j: int| 0 <= j < page ==> bit_set(self.bitmap@, j)
                &&& forall|j: int|
                    0 <= j < self.total_pages ==> bit_set(after.bitmap@, j) == (j == page
                        || bit_set(self.bitmap@, j))
                &&& after.free_pages == self.free_pages - 1
            },
            None => {
                &&& forall|j: int| 0 <= j < self.total_pages ==> bit_set(self.bitmap@, j)
                &&& after.bitmap@ == self.bitmap@
                &&& after.free_pages == self.free_pages
                &&& self.free_pages == 0
            },
        }
    }

    /// Whether giving the frame at `addr` back to this allocator may leave
    /// it as `after`: the bit of a frame in use is cleared, no other bit
    /// changes, and the count of free frames rises by one; a frame that is
    /// free already, or that the allocator does not cover, changes
    /// nothing.
    pub open spec fn gave_back(&self, addr: u64, after: &Self) -> bool {
        let page = addr as int / 4096;
        &&& after.total_pages == self.total_pages
        &&& if page < self.total_pages && bit_set(self.bitmap@, page) {
            &&& forall|j: int|
                0 <= j < self.total_pages ==> bit_set(after.bitmap@, j) == (j != page && bit_set(
                    self.bitmap@,
                    j,
                ))
            &&& after.free_pages == self.free_pages + 1
        } else {
            *after == *self
        }
    }

    /// Takes the free frame with the lowest number and gives its address.
    /// There is none when every frame is in use.
    pub fn alloc_page(&mut self) -> (r: Option<u64>)
        requires
            old(self).wf(),
        ensures
            final(self).wf(),
            final(self).total_pages == old(self).total_pages,
            match r {
                Some(addr) => {
                    let page = addr as int / 4096;
                    &&& addr as int % 4096 == 0
                    &&& 0 <= page < old(self).total_pages
                    &&& !bit_set(old(self).bitmap@, page)
                    &&& forall|j: int| 0 <= j < page ==> bit_set(old(self).bitmap@, j)
                    &&& forall|j: int|
                        0 <= j < old(self).total_pages ==> bit_set(final(self).bitmap@, j) == (j == page
                            || bit_set(old(self).bitmap@, j))
                    &&& final(self).free_pages == old(self).free_pages - 1
                },
                None => {
                    &&& forall|j: int| 0 <= j < old(self).total_pages ==> bit_set(old(self).bitmap@, j)
                    &&& final(self).bitmap@ == old(self).bitmap@
                    &&& final(self).free_pages == old(self).free_pages
                    &&& old(self).free_pages == 0
                },
            },
    {
        let mut i: usize = 0;
        while i < self.total_pages
            invariant
                i <= self.total_pages,
                *self == *old(self),
                self.wf(),
                forall|j: int| 0 <= j < i ==> bit_set(self.bitmap@, j),
            decreases self.total_pages - i,
        {
            if !self.test_bit(i) {
                proof {
                    lemma_clear_below_bounds(self.bitmap@, self.total_pages as int);
                    assert(!bit_set(self.bitmap@, i as int));
                }
                self.set_bit(i);
                proof {
                    lemma_clear_below_flip(
                        self.bitmap@,
                        old(self).bitmap@,
                        i as int,
                        self.total_pages as int,
                    );
                }
                self.free_pages = self.free_pages - 1;
                return Some((i as u64) * 4096);
            }
            i += 1;
        }
        proof {
            assert forall|j: int| 0 <= j < self.total_pages implies bit_set(self.bitmap@, j) by {}
            lemma_clear_below_bounds(self.bitmap@, self.total_pages as int);
        }
        None
    }

    /// Gives the frame at `addr` back. A frame that is not in use, or that
    /// the allocator does not cover, is left alone.
    pub fn free_page(&mut self, addr: u64)
        requires
            old(self).wf(),
        ensures
            final(self).wf(),
            final(self).total_pages == old(self).total_pages,
            ({
                let page = addr as int / 4096;
                if page < old(self).total_pages && bit_set(old(self).bitmap@, page) {
                    &&& forall|j: int|
                        0 <= j < old(self).total_pages ==> bit_set(final(self).bitmap@, j) == (j != page
                            && bit_set(old(self).bitmap@, j))
                    &&& final(self).free_pages == old(self).free_pages + 1
                } else {
                    *final(self) == *old(self)
                }
            }),
    {
        let page64: u64 = addr / 4096;
        if page64 >= self.total_pages as u64 {
            return ;
        }
        let page: usize = page64 as usize;
        if self.test_bit(page) {
            self.clear_bit(page);
            proof {
                lemma_clear_below_flip(
                    old(self).bitmap@,
                    self.bitmap@,
                    page as int,
                    self.total_pages as int,
                );
                lemma_clear_below_bounds(self.bitmap@, self.total_pages as int);
            }
            self.free_pages = self.free_pages + 1;
        }
    }

    /// When every frame is in use and one of them is given back, the next
    /// frame taken is that one, and after it there is none again.
    pub proof fn lemma_freed_is_next(
        full: &Self,
        freed: &Self,
        taken: &Self,
        addr: u64,
        r: Option<u64>,
    )
        requires
            full.wf(),
            forall|j: int| 0 <= j < full.total_pages ==> bit_set(full.bitmap@, j),
            addr as int % 4096 == 0,
            addr as int / 4096 < full.total_pages,
            full.gave_back(addr, freed),
            freed.took(r, taken),
        ensures
            r == Some(addr),
            forall|j: int| 0 <= j < full.total_pages ==> bit_set(taken.bitmap@, j),
    {
        let page = addr as int / 4096;
        assert(bit_set(full.bitmap@, page));
        assert(!bit_set(freed.bitmap@, page));
        match r {
            Some(got) => {
                let at = got as int / 4096;
                assert(at == page) by {
                    if at < page {
                        assert(bit_set(freed.bitmap@, at) == (at != page && bit_set(
                            full.bitmap@,
                            at,
                        )));
                    }
                }
                assert(got == addr);
            },
            None => {},
        }
    }

    /// After a frame in use is given back, a frame can be taken again.
    pub proof fn lemma_free_then_available(before: &Self, after: &Self, page: int)
        requires
            before.wf(),
            after.wf(),
            after.total_pages == before.total_pages,
            0 <= page < before.total_pages,
            !bit_set(after.bitmap@, page),
        ensures
            after.free_pages >= 1,
            exists|j: int| 0 <= j < after.total_pages && !bit_set(after.bitmap@, j),
    {
        lemma_clear_below_bounds(after.bitmap@, after.total_pages as int);
        assert(0 <= page < after.total_pages && !bit_set(after.bitmap@, page));
    }
}

/// The first page frame that lies wholly in the region, and the frame
/// just past the last one that does.
pub open spec fn region_pages(r: MemoryRegion) -> (int, int) {
    ((r.base as int + 4095) / 4096, (r.base as int + r.length as int) / 4096)
}

/// Whether `page` lies wholly in one of the first `count` regions of
/// `memmap` that are usable.
pub open spec fn freed_by(memmap: Seq<MemoryRegion>, count: int, page: int) -> bool {
    exists|k: int|
        0 <= k < count && (#[trigger] memmap[k]).usable && region_pages(memmap[k]).0 <= page
            < region_pages(memmap[k]).1
}

/// Whether the bitmap itself lies, in part at least, in frame `page`.
pub open spec fn holds_bitmap(plan: BitmapPlan, page: int) -> bool {
    plan.bitmap_addr as int / 4096 <= page < (plan.bitmap_addr as int + plan.bitmap_size as int
        + 4095) / 4096
}

impl BitmapAllocator {
    /// Marks frame `page` as free if it is in use, and counts it.
    fn release(&mut self, page: usize)
        requires
            old(self).wf(),
            page < old(self).total_pages,
        ensures
            final(self).wf(),
            final(self).total_pages == old(self).total_pages,
            final(self).bitmap@.len() == old(self).bitmap@.len(),
            forall|j: int|
                0 <= j < old(self).total_pages ==> #[trigger] bit_set(final(self).bitmap@, j) == (j
                    != page && bit_set(old(self).bitmap@, j)),
    {
        if self.test_bit(page) {
            self.clear_bit(page);
            proof {
                lemma_clear_below_flip(
                    old(self).bitmap@,
                    self.bitmap@,
                    page as int,
                    self.total_pages as int,
                );
                lemma_clear_below_bounds(self.bitmap@, self.total_pages as int);
            }
            self.free_pages = self.free_pages + 1;
        }
    }

    /// Marks frame `page` as in use if it is free, and counts it.
    fn reserve(&mut self, page: usize)
        requires
            old(self).wf(),
            page < old(self).total_pages,
        ensures
            final(self).wf(),
            final(self).total_pages == old(self).total_pages,
            final(self).bitmap@.len() == old(self).bitmap@.len(),
            forall|j: int|
                0 <= j < old(self).total_pages ==> #[trigger] bit_set(final(self).bitmap@, j) == (j
                    == page || bit_set(old(self).bitmap@, j)),
    {
        if !self.test_bit(page) {
            proof {
                lemma_clear_below_bounds(self.bitmap@, self.total_pages as int);
                assert(0 <= page < self.total_pages && !bit_set(self.bitmap@, page as int));
            }
            self.set_bit(page);
            proof {
                lemma_clear_below_flip(
                    self.bitmap@,
                    old(self).bitmap@,
                    page as int,
                    self.total_pages as int,
                );
            }
            self.free_pages = self.free_pages - 1;
        }
    }

    /// Builds the allocator in `storage`: every frame starts as in use,
    /// the frames that lie wholly in a usable region become free, and the
    /// frames that hold the bitmap are taken again.
    pub fn init(memmap: &[MemoryRegion], plan: &BitmapPlan, storage: Vec<u8>) -> (r: Self)
        requires
            storage@.len() == plan.bitmap_size,
            plan.bitmap_size * 8 >= plan.total_pages,
            plan.total_pages <= MAX_PAGES,
            forall|k: int|
                0 <= k < memmap@.len() ==> (#[trigger] memmap@[k]).base + memmap@[k].length
                    <= u64::MAX,
        ensures
            r.wf(),
            r.total_pages == plan.total_pages,
            forall|page: int|
                0 <= page < plan.total_pages ==> bit_set(r.bitmap@, page) == (!freed_by(
                    memmap@,
                    memmap@.len() as int,
                    page,
                ) || holds_bitmap(*plan, page)),
    {
        let mut storage = storage;
        let size: usize = storage.len();
        let mut i: usize = 0;
        while i < size
            invariant
                i <= size,
                size == storage@.len(),
                forall|k: int| 0 <= k < i ==> storage@[k] == 0xFFu8,
            decreases size - i,
        {
            storage[i] = 0xFF;
            i += 1;
        }
        let mut allocator = BitmapAllocator {
            bitmap: storage,
            total_pages: plan.total_pages,
            free_pages: 0,
        };
        proof {
            assert forall|j: int| 0 <= j < plan.total_pages implies bit_set(
                allocator.bitmap@,
                j,
            ) by {
                lemma_byte_full((j % 8) as u8);
            }
            lemma_clear_below_bounds(allocator.bitmap@, plan.total_pages as int);
        }
        let total: u64 = plan.total_pages as u64;
        let n: usize = memmap.len();
        let mut k: usize = 0;
        while k < n
            invariant
                k <= n,
                n == memmap@.len(),
                allocator.wf(),
                allocator.total_pages == plan.total_pages,
                total == plan.total_pages,
                forall|j: int|
                    0 <= j < n ==> (#[trigger] memmap@[j]).base + memmap@[j].length <= u64::MAX,
                forall|page: int|
                    0 <= page < plan.total_pages ==> #[trigger] bit_set(allocator.bitmap@, page) == !freed_by(
                        memmap@,
                        k as int,
                        page,
                    ),
            decreases n - k,
        {
            let region = memmap[k];
            if region.usable {
                let first: u64 = region.base / 4096 + if region.base % 4096 == 0 {
                    0
                } else {
                    1
                };
                let end: u64 = (region.base + region.length) / 4096;
                let stop: u64 = if end < total {
                    end
                } else {
                    total
                };
                let mut page: u64 = first;
                let ghost before = allocator.bitmap@;
                while page < stop
                    invariant
                        first <= page,
                        stop <= total,
                        total == plan.total_pages,
                        k < n,
                        n == memmap@.len(),
                        memmap@[k as int].usable,
                        first as int == region_pages(memmap@[k as int]).0,
                        end as int == region_pages(memmap@[k as int]).1,
                        stop == (if end < total {
                            end
                        } else {
                            total
                        }),
                        page <= stop || page == first,
                        forall|p: int|
                            0 <= p < plan.total_pages ==> #[trigger] bit_set(before, p) == !freed_by(
                                memmap@,
                                k as int,
                                p,
                            ),
                        allocator.wf(),
                        allocator.total_pages == plan.total_pages,
                        forall|p: int|
                            0 <= p < plan.total_pages ==> #[trigger] bit_set(allocator.bitmap@, p) == (
                            bit_set(before, p) && !(first <= p < page)),
                    decreases stop - page,
                {
                    let ghost held = allocator.bitmap@;
                    allocator.release(page as usize);
                    proof {
                        assert forall|p: int| 0 <= p < plan.total_pages implies bit_set(
                            allocator.bitmap@,
                            p,
                        ) == (bit_set(before, p) && !(first <= p < page + 1)) by {
                            assert(bit_set(allocator.bitmap@, p) == (p != page && bit_set(held, p)));
                            assert(bit_set(held, p) == (bit_set(before, p) && !(first <= p < page)));
                        }
                    }
                    page += 1;
                }
                proof {
                    assert forall|p: int| 0 <= p < plan.total_pages implies bit_set(
                        allocator.bitmap@,
                        p,
                    ) == !freed_by(memmap@, k + 1, p) by {
                        let here = region_pages(memmap@[k as int]).0 <= p < region_pages(
                            memmap@[k as int],
                        ).1;
                        assert(here == (first <= p < end));
                        assert(here == (first <= p < page));
                        if here {
                            assert(freed_by(memmap@, k + 1, p));
                        }
                        if freed_by(memmap@, k + 1, p) {
                            let w = choose|w: int|
                                0 <= w < k + 1 && (#[trigger] memmap@[w]).usable && region_pages(
                                    memmap@[w],
                                ).0 <= p < region_pages(memmap@[w]).1;
                            if w < k {
                                assert(freed_by(memmap@, k as int, p));
                            }
                        }
                        if freed_by(memmap@, k as int, p) {
                            let w = choose|w: int|
                                0 <= w < k && (#[trigger] memmap@[w]).usable && region_pages(
                                    memmap@[w],
                                ).0 <= p < region_pages(memmap@[w]).1;
                            assert(0 <= w < k + 1);
                        }
                    }
                }
            } else {
                proof {
                    assert forall|p: int| 0 <= p < plan.total_pages implies freed_by(
                        memmap@,
                        k + 1,
                        p,
                    ) == freed_by(memmap@, k as int, p) by {
                        if freed_by(memmap@, k + 1, p) {
                            let w = choose|w: int|
                                0 <= w < k + 1 && (#[trigger] memmap@[w]).usable && region_pages(
                                    memmap@[w],
                                ).0 <= p < region_pages(memmap@[w]).1;
                            assert(w < k);
                        }
                        if freed_by(memmap@, k as int, p) {
                            let w = choose|w: int|
                                0 <= w < k && (#[trigger] memmap@[w]).usable && region_pages(
                                    memmap@[w],
                                ).0 <= p < region_pages(memmap@[w]).1;
                            assert(0 <= w < k + 1);
                        }
                    }
                }
            }
            k += 1;
        }
        let first: u64 = plan.bitmap_addr / 4096;
        let span: u64 = (plan.bitmap_addr % 4096) + (plan.bitmap_size as u64 % 4096);
        let whole: u64 = plan.bitmap_size as u64 / 4096;
        // The frame just past the bitmap, computed without leaving 64 bits.
        let extra: u64 = (span + 4095) / 4096;
        let end: u64 = if first > u64::MAX - whole - extra {
            u64::MAX
        } else {
            first + whole + extra
        };
        let stop: u64 = if end < total {
            end
        } else {
            total
        };
        let mut page: u64 = first;
        let ghost before = allocator.bitmap@;
        proof {
            assert forall|p: int| 0 <= p < plan.total_pages implies holds_bitmap(*plan, p) == (first
                <= p < stop) by {
                let a = plan.bitmap_addr as int;
                let s = plan.bitmap_size as int;
                assert((a + s + 4095) / 4096 == a / 4096 + s / 4096 + (a % 4096 + s % 4096 + 4095)
                    / 4096);
            }
        }
        while page < stop
            invariant
                first <= page,
                stop <= total,
                total == plan.total_pages,
                n == memmap@.len(),
                page <= stop || page == first,
                forall|p: int|
                    0 <= p < plan.total_pages ==> holds_bitmap(*plan, p) == (first <= p < stop),
                forall|p: int|
                    0 <= p < plan.total_pages ==> #[trigger] bit_set(before, p) == !freed_by(
                        memmap@,
                        n as int,
                        p,
                    ),
                allocator.wf(),
                allocator.total_pages == plan.total_pages,
                forall|p: int|
                    0 <= p < plan.total_pages ==> #[trigger] bit_set(allocator.bitmap@, p) == (bit_set(
                        before,
                        p,
                    ) || (first <= p < page)),
            decreases stop - page,
        {
            allocator.reserve(page as usize);
            page += 1;
        }
        allocator
    }
}

/// The address just past the highest region of `memmap`, or nothing when
/// a region ends beyond the 64-bit range.
pub open spec fn highest_end(memmap: Seq<MemoryRegion>) -> Option<int>
    decreases memmap.len(),
{
    if memmap.len() == 0 {
        Some(0int)
    } else {
        let end = memmap.last().base as int + memmap.last().length as int;
        match highest_end(memmap.drop_last()) {
            Some(h) => if end > u64::MAX as int {
                None
            } else if end > h {
                Some(end)
            } else {
                Some(h)
            },
            None => None,
        }
    }
}

/// Position of the first usable region of at least `size` bytes, or the
/// number of regions when there is none.
pub open spec fn first_fit(memmap: Seq<MemoryRegion>, size: int) -> int
    decreases memmap.len(),
{
    if memmap.len() == 0 {
        0
    } else if memmap[0].usable && memmap[0].length as int >= size {
        0
    } else {
        1 + first_fit(memmap.drop_first(), size)
    }
}

/// Where the bitmap goes and what it covers.
#[derive(Debug, Clone, Copy, PartialEq, Eq, Structural)]
pub struct BitmapPlan {
    /// Number of page frames: up to the highest address reported.
    pub total_pages: usize,
    /// Number of bytes of the bitmap: a bit for every frame.
    pub bitmap_size: usize,
    /// Physical address of the bitmap: the start of the first usable
    /// region that is large enough.
    pub bitmap_addr: u64,
}

/// Plans the bitmap for the memory map `memmap`. There is no plan when a
/// region ends beyond the 64-bit range, or when no usable region can hold
/// the bitmap.
pub fn plan_bitmap(memmap: &[MemoryRegion]) -> (r: Option<BitmapPlan>)
    ensures
        match r {
            Some(p) => {
                &&& highest_end(memmap@) is Some
                &&& p.total_pages as int == (highest_end(memmap@)->0 + 4095) / 4096
                &&& p.bitmap_size as int == (p.total_pages as int + 7) / 8
                &&& first_fit(memmap@, p.bitmap_size as int) < memmap@.len()
                &&& p.bitmap_addr == memmap@[first_fit(memmap@, p.bitmap_size as int)].base
                &&& p.total_pages <= MAX_PAGES
                &&& forall|k: int|
                    0 <= k < memmap@.len() ==> (#[trigger] memmap@[k]).base + memmap@[k].length
                        <= u64::MAX
            },
            None => highest_end(memmap@) is None || (highest_end(memmap@)->0 + 4095) / 4096
                > usize::MAX || first_fit(
                memmap@,
                ((highest_end(memmap@)->0 + 4095) / 4096 + 7) / 8,
            ) >= memmap@.len(),
        },
{
    let n: usize = memmap.len();
    let mut highest: u64 = 0;
    let mut i: usize = 0;
    proof {
        assert(memmap@.subrange(0, 0).len() == 0);
    }
    while i < n
        invariant
            i <= n,
            n == memmap@.len(),
            highest_end(memmap@.subrange(0, i as int)) == Some(highest as int),
            forall|k: int|
                0 <= k < i ==> (#[trigger] memmap@[k]).base + memmap@[k].length <= u64::MAX,
        decreases n - i,
    {
        proof {
            let head = memmap@.subrange(0, i + 1);
            assert(head.drop_last() =~= memmap@.subrange(0, i as int));
            assert(head.last() == memmap@[i as int]);
        }
        let end = match memmap[i].base.checked_add(memmap[i].length) {
            Some(e) => e,
            None => {
                proof {
                    lemma_highest_end_none(memmap@, i + 1);
                }
                return None;
            },
        };
        if end > highest {
            highest = end;
        }
        i += 1;
    }
    proof {
        assert(memmap@.subrange(0, n as int) =~= memmap@);
    }
    let pages64: u64 = highest / 4096 + if highest % 4096 == 0 {
        0
    } else {
        1
    };
    if pages64 > usize::MAX as u64 {
        return None;
    }
    let total_pages: usize = pages64 as usize;
    let bitmap_size: usize = total_pages / 8 + if total_pages % 8 == 0 {
        0
    } else {
        1
    };
    let mut k: usize = 0;
    proof {
        assert(memmap@.subrange(0, n as int) =~= memmap@);
    }
    while k < n
        invariant
            k <= n,
            n == memmap@.len(),
            highest_end(memmap@) == Some(highest as int),
            forall|j: int|
                0 <= j < n ==> (#[trigger] memmap@[j]).base + memmap@[j].length <= u64::MAX,
            total_pages as int == (highest as int + 4095) / 4096,
            bitmap_size as int == (total_pages as int + 7) / 8,
            total_pages <= MAX_PAGES,
            first_fit(memmap@, bitmap_size as int) == k + first_fit(
                memmap@.subrange(k as int, n as int),
                bitmap_size as int,
            ),
        decreases n - k,
    {
        proof {
            let rest = memmap@.subrange(k as int, n as int);
            assert(rest[0] == memmap@[k as int]);
            assert(rest.drop_first() =~= memmap@.subrange(k + 1, n as int));
        }
        if memmap[k].usable && memmap[k].length >= bitmap_size as u64 {
            return Some(BitmapPlan { total_pages, bitmap_size, bitmap_addr: memmap[k].base });
        }
        k += 1;
    }
    proof {
        assert(memmap@.subrange(n as int, n as int).len() == 0);
    }
    None
}

/// Once a region ends beyond the 64-bit range, there is no highest end.
pub proof fn lemma_highest_end_none(memmap: Seq<MemoryRegion>, j: int)
    requires
        0 <= j <= memmap.len(),
        highest_end(memmap.subrange(0, j)) is None,
    ensures
        highest_end(memmap) is None,
    decreases memmap.len() - j,
{
    if j == memmap.len() {
        assert(memmap.subrange(0, j) =~= memmap);
    } else {
        let t = memmap.drop_last();
        if j == memmap.len() - 1 {
            assert(memmap.subrange(0, j) =~= t);
        } else {
            assert(t.subrange(0, j) =~= memmap.subrange(0, j));
            lemma_highest_end_none(t, j);
        }
    }
}

/// Takes a frame from the allocator, if there is an allocator: the free
/// frame with the lowest number.
pub fn allocate(pmm: &mut Option<BitmapAllocator>) -> (r: Option<u64>)
    requires
        (*old(pmm)) matches Some(a) ==> a.wf(),
    ensures
        match (*old(pmm), *final(pmm)) {
            (None, None) => r is None,
            (Some(before), Some(after)) => after.wf() && before.took(r, &after),
            _ => false,
        },
{
    match pmm {
        Some(a) => a.alloc_page(),
        None => None,
    }
}

/// Gives a frame back to the allocator, if there is an allocator.
pub fn free(pmm: &mut Option<BitmapAllocator>, addr: u64)
    requires
        (*old(pmm)) matches Some(a) ==> a.wf(),
    ensures
        match (*old(pmm), *final(pmm)) {
            (None, None) => true,
            (Some(before), Some(after)) => after.wf() && before.gave_back(addr, &after),
            _ => false,
        },
{
    match pmm {
        Some(a) => {
            a.free_page(addr);
        },
        None => {},
    }
}

/// The number of free frames, 0 without an allocator.
pub fn free_pages(pmm: &Option<BitmapAllocator>) -> (r: usize)
    ensures
        r == match pmm {
            Some(a) => a.free_pages,
            None => 0,
        },
{
    match pmm {
        Some(a) => a.free_pages,
        None => 0,
    }
}

/// The number of frames the allocator covers, 0 without an allocator.
pub fn total_pages(pmm: &Option<BitmapAllocator>) -> (r: usize)
    ensures
        r == match pmm {
            Some(a) => a.total_pages,
            None => 0,
        },
{
    match pmm {
        Some(a) => a.total_pages,
        None => 0,
    }
}

} // verus!
