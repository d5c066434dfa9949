//! The early double-ended bootstrap allocator: one contiguous region
//! serves byte allocations growing forward from the low end (with the same
//! free-list split/merge scheme as the general allocator) and whole-page
//! allocations growing backward from the high end under strict stack
//! discipline.
//!
//! ```text
//! [ bytes-used | avail-area | pages-used ]
//! |            | -->    <-- |            |
//! start    left_index  right_index     end
//! ```

use crate::byte_alloc::lemma_carve_preserves;
use crate::byte_alloc::PoolEntry;
use crate::freelist::{
    blocks_disjoint, blocks_fit, carve, carve_owned, disjoint, find_fit, first_fit,
    free_lives_disjoint, lemma_first_fit, lemma_live_index_unique, lemma_merge_disjoint,
    lemma_merge_fit, lemma_merge_range_disjoint, lemma_merge_sum, lemma_sum_free_cons,
    lemma_sum_free_elem, lemma_sum_free_nonneg, lemma_sum_owned_nonneg, lemma_sum_owned_remove,
    lemma_sum_required_elem, lemma_sum_required_nonneg, lemma_sum_required_remove, live_index,
    lives_disjoint, lives_fit, merge_pass, merge_pass_spec, range_free_disjoint, required_for,
    sum_free, sum_owned, sum_required, FreeBlock, LiveAlloc, HEADER_SIZE,
};
use crate::AllocError;
use vstd::prelude::*;

verus! {

/// The bounds of the region adopted at `init`: the byte cursor never drops
/// below `lo` further than rewinds allow, and the page cursor never rises
/// above `hi`.
pub ghost struct RegionBounds {
    pub lo: int,
    pub hi: int,
}

/// Bytes held by the page runs on the stack, most recent first popped.
pub open spec fn sum_pages(p: Seq<int>) -> int
    decreases p.len(),
{
    if p.len() == 0 {
        0
    } else {
        p.last() + sum_pages(p.drop_last())
    }
}

pub proof fn lemma_sum_pages_nonneg(p: Seq<int>)
    requires
        forall|k: int| 0 <= k < p.len() ==> p[k] >= 0,
    ensures
        sum_pages(p) >= 0,
        p.len() > 0 ==> sum_pages(p) >= p.last(),
    decreases p.len(),
{
    if p.len() > 0 {
        assert(forall|k: int| 0 <= k < p.drop_last().len() ==> p.drop_last()[k] == p[k]);
        lemma_sum_pages_nonneg(p.drop_last());
    }
}

/// `x` is a power of two.
pub open spec fn is_pow2_spec(x: int) -> bool
    decreases x,
{
    if x <= 0 {
        false
    } else if x == 1 {
        true
    } else {
        x % 2 == 0 && is_pow2_spec(x / 2)
    }
}

/// A page-allocation alignment is acceptable when it is a multiple of the
/// page size and, normalized to page units, a power of two.
pub open spec fn page_align_ok(align: int, page: int) -> bool {
    align % page == 0 && is_pow2_spec(align / page)
}

fn is_pow2(x: usize) -> (r: bool)
    ensures
        r == is_pow2_spec(x as int),
{
    if x == 0 {
        return false;
    }
    let mut v: usize = x;
    while v > 1
        invariant
            v >= 1,
            is_pow2_spec(x as int) == is_pow2_spec(v as int),
        decreases v,
    {
        if v % 2 != 0 {
            proof {
                assert(!is_pow2_spec(v as int));
            }
            return false;
        }
        v = v / 2;
    }
    true
}

/// The early double-ended allocator over one region, parameterized by the
/// fixed page size.
pub struct EarlyAllocator<const PAGE_SIZE: usize> {
    /// Bytes of all adopted regions together.
    pub total_size: usize,
    /// Bytes charged to live byte allocations plus bytes held by page runs.
    pub used_size: usize,
    /// The byte cursor: grows upward as byte allocations are served.
    pub left_index: usize,
    /// The page cursor: grows downward as page runs are served.
    pub right_index: usize,
    /// The byte side's free list, head first.
    pub free_list: Vec<FreeBlock>,
    /// Ghost record of the live byte allocations.
    pub live: Ghost<Seq<LiveAlloc>>,
    /// Ghost stack of the page-run sizes handed out, most recent last.
    pub pages: Ghost<Seq<int>>,
    /// Ghost bounds of the region adopted at `init`.
    pub bounds: Ghost<RegionBounds>,
}

impl<const PAGE_SIZE: usize> EarlyAllocator<PAGE_SIZE> {
    /// The free list as a sequence of descriptors, head first.
    pub open spec fn free(&self) -> Seq<FreeBlock> {
        self.free_list@
    }

    /// The live byte allocations.
    pub open spec fn lives(&self) -> Seq<LiveAlloc> {
        self.live@
    }

    /// The allocator's invariant: the byte side carries the free-list
    /// invariant of the general allocator, the cursors never cross, the
    /// page cursor accounts exactly for the page stack, and `used_size`
    /// charges live bytes plus page runs.
    pub open spec fn wf(&self) -> bool {
        &&& blocks_fit(self.free())
        &&& lives_fit(self.lives())
        &&& blocks_disjoint(self.free())
        &&& lives_disjoint(self.lives())
        &&& free_lives_disjoint(self.free(), self.lives())
        &&& sum_free(self.free()) + sum_owned(self.lives()) <= self.total_size
        &&& self.used_size == sum_required(self.lives()) + sum_pages(self.pages@)
        &&& (forall|k: int| 0 <= k < self.pages@.len() ==> self.pages@[k] >= 0)
        &&& 0 <= self.bounds@.lo
        &&& self.bounds@.hi <= usize::MAX
        &&& self.bounds@.lo + sum_required(self.lives()) <= self.left_index
        &&& self.left_index <= self.right_index
        &&& self.right_index + sum_pages(self.pages@) == self.bounds@.hi
        &&& self.bounds@.hi - self.bounds@.lo <= self.total_size
        &&& self.used_size <= self.total_size
    }

    /// An empty allocator owning no region; `init` must be called before
    /// any allocation can succeed.
    pub fn new() -> (r: Self)
        ensures
            r.wf(),
            r.total_size == 0,
            r.used_size == 0,
            r.left_index == 0,
            r.right_index == 0,
            r.free() == Seq::<FreeBlock>::empty(),
            r.lives() == Seq::<LiveAlloc>::empty(),
            r.pages@ == Seq::<int>::empty(),
    {
        Self {
            total_size: 0,
            used_size: 0,
            left_index: 0,
            right_index: 0,
            free_list: Vec::new(),
            live: Ghost(Seq::empty()),
            pages: Ghost(Seq::empty()),
            bounds: Ghost(RegionBounds { lo: 0, hi: 0 }),
        }
    }

    /// Adopt `[start, start + size)`: the byte cursor starts at the low
    /// end, the page cursor at the high end, and one block spanning the
    /// whole region (minus its header) becomes the free list.  Any prior
    /// state is discarded.
    pub fn init(&mut self, start: usize, size: usize)
        requires
            size >= HEADER_SIZE,
            start + size <= usize::MAX,
        ensures
            final(self).wf(),
            final(self).total_size == size,
            final(self).used_size == 0,
            final(self).left_index == start,
            final(self).right_index == start + size,
            final(self).free() == seq![
                FreeBlock { addr: start, size: (size - HEADER_SIZE) as usize },
            ],
            final(self).lives() == Seq::<LiveAlloc>::empty(),
            final(self).pages@ == Seq::<int>::empty(),
            final(self).bounds@ == (RegionBounds { lo: start as int, hi: start + size }),
    {
        self.left_index = start;
        self.right_index = start + size;
        self.used_size = 0;
        self.total_size = size;
        self.free_list = Vec::new();
        self.free_list.push(FreeBlock { addr: start, size: size - HEADER_SIZE });
        self.live = Ghost(Seq::empty());
        self.pages = Ghost(Seq::empty());
        self.bounds = Ghost(RegionBounds { lo: start as int, hi: start + size });
        proof {
            let f = self.free();
            assert(f =~= seq![FreeBlock { addr: start, size: (size - HEADER_SIZE) as usize }]);
            assert(sum_free(f) == HEADER_SIZE + (size - HEADER_SIZE) + sum_free(f.drop_first()));
            assert(f.drop_first() =~= Seq::<FreeBlock>::empty());
        }
    }

    /// Add a second region as one new block pushed to the head of the free
    /// list, grow the total, and run a coalescing pass.  The cursors do
    /// not move.
    pub fn add_memory(&mut self, start: usize, size: usize) -> (r: Result<(), AllocError>)
        requires
            old(self).wf(),
            size >= HEADER_SIZE,
            start + size <= usize::MAX,
            old(self).total_size + size <= usize::MAX,
            range_free_disjoint(old(self).free(), start as int, start + size),
            crate::freelist::range_lives_disjoint(old(self).lives(), start as int, start + size),
        ensures
            final(self).wf(),
            r == Ok::<(), AllocError>(()),
            final(self).total_size == old(self).total_size + size,
            final(self).used_size == old(self).used_size,
            final(self).left_index == old(self).left_index,
            final(self).right_index == old(self).right_index,
            final(self).lives() == old(self).lives(),
            final(self).pages@ == old(self).pages@,
            final(self).bounds@ == old(self).bounds@,
            final(self).free() == merge_pass_spec(
                seq![FreeBlock { addr: start, size: (size - HEADER_SIZE) as usize }]
                    + old(self).free(),
            ),
    {
        let ghost f0 = self.free();
        let nb = FreeBlock { addr: start, size: size - HEADER_SIZE };
        self.free_list.insert(0, nb);
        self.total_size = self.total_size + size;
        let ghost s0 = self.free();
        proof {
            assert(s0 =~= seq![nb] + f0);
            assert(blocks_fit(s0) && blocks_disjoint(s0)) by {
                assert(forall|k: int| 1 <= k < s0.len() ==> #[trigger] s0[k] == f0[k - 1]);
            }
        }
        merge_pass(&mut self.free_list);
        proof {
            lemma_merge_fit(s0);
            lemma_merge_sum(s0);
            lemma_merge_disjoint(s0);
            lemma_sum_free_cons(nb, f0);
            let l = self.lives();
            assert forall|i: int, j: int|
                0 <= i < self.free().len() && 0 <= j < l.len() implies disjoint(
                (#[trigger] self.free()[i]).addr as int,
                self.free()[i].end(),
                (#[trigger] l[j]).lo(),
                l[j].hi(),
            ) by {
                assert(range_free_disjoint(s0, l[j].lo(), l[j].hi())) by {
                    assert(forall|k: int| 1 <= k < s0.len() ==> #[trigger] s0[k] == f0[k - 1]);
                }
                assert(l[j].lo() < l[j].hi());
                lemma_merge_range_disjoint(s0, l[j].lo(), l[j].hi());
            }
            lemma_sum_free_nonneg(self.free());
            lemma_sum_owned_nonneg(self.lives());
            lemma_sum_required_nonneg(self.lives());
            lemma_sum_pages_nonneg(self.pages@);
        }
        Ok(())
    }

    /// Serve a byte allocation.  The request is charged `max(size, align)`
    /// bytes; it fails with `NoMemory` when that many bytes would close
    /// the gap to the page cursor, or when no free block is large enough.
    /// On success the byte cursor advances by the charged bytes.
    #[verifier::loop_isolation(false)]
    pub fn allocate(&mut self, size: usize, align: usize) -> (r: Result<usize, AllocError>)
        requires
            old(self).wf(),
        ensures
            final(self).wf(),
            final(self).total_size == old(self).total_size,
            final(self).right_index == old(self).right_index,
            final(self).pages@ == old(self).pages@,
            final(self).bounds@ == old(self).bounds@,
            ({
                let req = required_for(size as int, align as int);
                let f = old(self).free();
                let j = first_fit(f, req);
                &&& (req >= old(self).right_index - old(self).left_index ==> r == Err::<
                    usize,
                    AllocError,
                >(AllocError::NoMemory) && *final(self) == *old(self))
                &&& (req < old(self).right_index - old(self).left_index && j == -1 ==> r == Err::<
                    usize,
                    AllocError,
                >(AllocError::NoMemory) && *final(self) == *old(self))
                &&& (req < old(self).right_index - old(self).left_index && j != -1 ==> {
                    &&& r == Ok::<usize, AllocError>((f[j].addr + HEADER_SIZE) as usize)
                    &&& final(self).free() == carve(f, j, req)
                    &&& final(self).lives() == old(self).lives().push(
                        LiveAlloc {
                            ptr: f[j].addr + HEADER_SIZE,
                            required: req,
                            owned: carve_owned(f, j, req),
                        },
                    )
                    &&& final(self).used_size == old(self).used_size + req
                    &&& final(self).left_index == old(self).left_index + req
                })
            }),
    {
        let required = if size >= align {
            size
        } else {
            align
        };
        if required >= self.right_index - self.left_index {
            return Err(AllocError::NoMemory);
        }
        let ghost req = required as int;
        let ghost f = self.free();
        let ghost l0 = self.lives();
        let n_blocks = self.free_list.len();
        proof {
            assert(f.len() == n_blocks);
            lemma_first_fit(f, req);
        }
        let found = find_fit(&self.free_list, required);
        match found {
            None => Err(AllocError::NoMemory),
            Some(j) => {
                let ghost jj = j as int;
                let b = self.free_list[j];
                proof {
                    assert(found == Some(j));
                    assert(first_fit(f, req) == jj);
                    assert(f[jj].end() <= usize::MAX);
                    lemma_sum_free_elem(f, jj);
                    lemma_sum_required_nonneg(l0);
                    lemma_sum_owned_nonneg(l0);
                    lemma_sum_pages_nonneg(self.pages@);
                }
                let ptr = b.addr + HEADER_SIZE;
                if b.size - required > HEADER_SIZE {
                    let nb = FreeBlock {
                        addr: b.addr + HEADER_SIZE + required,
                        size: b.size - required - HEADER_SIZE,
                    };
                    self.free_list.set(j, nb);
                } else {
                    self.free_list.remove(j);
                }
                self.used_size = self.used_size + required;
                self.left_index = self.left_index + required;
                let ghost la = LiveAlloc {
                    ptr: ptr as int,
                    required: req,
                    owned: carve_owned(f, jj, req),
                };
                self.live = Ghost(l0.push(la));
                proof {
                    lemma_carve_preserves(f, l0, Seq::<PoolEntry>::empty(), jj, req);
                    assert(self.free() =~= carve(f, jj, req));
                    lemma_sum_required_nonneg(self.lives());
                    lemma_sum_free_nonneg(self.free());
                }
                Ok(ptr)
            },
        }
    }

    /// Return a byte allocation.  The caller must hand back the size and
    /// alignment of the original request.  The block rejoins the head of
    /// the free list and a coalescing pass runs; when the freed block was
    /// the most recently served one (its payload ends exactly at the byte
    /// cursor), the cursor rewinds to the freed pointer.
    pub fn deallocate(&mut self, ptr: usize, size: usize, align: usize)
        requires
            old(self).wf(),
            exists|i: int|
                0 <= i < old(self).lives().len() && (#[trigger] old(self).lives()[i]).ptr
                    == ptr as int && old(self).lives()[i].required == required_for(
                    size as int,
                    align as int,
                ),
        ensures
            final(self).wf(),
            final(self).total_size == old(self).total_size,
            final(self).right_index == old(self).right_index,
            final(self).pages@ == old(self).pages@,
            final(self).bounds@ == old(self).bounds@,
            ({
                let req = required_for(size as int, align as int);
                let i = live_index(old(self).lives(), ptr as int);
                &&& final(self).used_size == old(self).used_size - req
                &&& final(self).lives() == old(self).lives().remove(i)
                &&& final(self).free() == merge_pass_spec(
                    seq![FreeBlock { addr: (ptr - HEADER_SIZE) as usize, size: required_for(size as int, align as int) as usize }]
                        + old(self).free(),
                )
                &&& final(self).left_index == (if ptr + req == old(self).left_index {
                    ptr as int
                } else {
                    old(self).left_index as int
                })
            }),
    {
        let required = if size >= align {
            size
        } else {
            align
        };
        let ghost req = required as int;
        let ghost f0 = self.free();
        let ghost l0 = self.lives();
        let ghost i = live_index(l0, ptr as int);
        proof {
            lemma_live_index_unique(l0, ptr as int);
            assert(l0[i].required == req) by {
                let w = choose|w: int|
                    0 <= w < l0.len() && (#[trigger] l0[w]).ptr == ptr as int && l0[w].required
                        == req;
                assert(w == i);
            }
            lemma_sum_required_elem(l0, i);
            lemma_sum_pages_nonneg(self.pages@);
            assert(ptr + req <= l0[i].hi() <= usize::MAX);
        }
        self.used_size = self.used_size - required;
        if ptr + required == self.left_index {
            self.left_index = ptr;
        }
        let nb = FreeBlock { addr: ptr - HEADER_SIZE, size: required };
        self.free_list.insert(0, nb);
        self.live = Ghost(l0.remove(i));
        let ghost s0 = self.free();
        proof {
            assert(s0 =~= seq![nb] + f0);
            let la = l0[i];
            assert(nb.addr == la.lo());
            assert(nb.end() <= la.hi());
            assert(blocks_fit(s0) && blocks_disjoint(s0)) by {
                assert(forall|k: int| 1 <= k < s0.len() ==> #[trigger] s0[k] == f0[k - 1]);
                assert forall|k: int| 1 <= k < s0.len() implies disjoint(
                    (#[trigger] s0[k]).addr as int,
                    s0[k].end(),
                    nb.addr as int,
                    nb.end(),
                ) by {
                    assert(disjoint(f0[k - 1].addr as int, f0[k - 1].end(), la.lo(), la.hi()));
                }
            }
        }
        merge_pass(&mut self.free_list);
        proof {
            let la = l0[i];
            let l2 = self.lives();
            assert(forall|k: int|
                0 <= k < l2.len() ==> #[trigger] l2[k] == (if k < i {
                    l0[k]
                } else {
                    l0[k + 1]
                }));
            lemma_merge_fit(s0);
            lemma_merge_sum(s0);
            lemma_merge_disjoint(s0);
            lemma_sum_free_cons(nb, f0);
            lemma_sum_owned_remove(l0, i);
            lemma_sum_required_remove(l0, i);
            assert(lives_fit(l2) && lives_disjoint(l2));
            assert forall|x: int, y: int|
                0 <= x < self.free().len() && 0 <= y < l2.len() implies disjoint(
                (#[trigger] self.free()[x]).addr as int,
                self.free()[x].end(),
                (#[trigger] l2[y]).lo(),
                l2[y].hi(),
            ) by {
                let yl = if y < i {
                    y
                } else {
                    y + 1
                };
                assert(l2[y] == l0[yl]);
                assert(range_free_disjoint(s0, l0[yl].lo(), l0[yl].hi())) by {
                    assert(forall|k: int| 1 <= k < s0.len() ==> #[trigger] s0[k] == f0[k - 1]);
                    assert(disjoint(la.lo(), la.hi(), l0[yl].lo(), l0[yl].hi()));
                }
                assert(l0[yl].lo() < l0[yl].hi());
                lemma_merge_range_disjoint(s0, l0[yl].lo(), l0[yl].hi());
            }
            lemma_sum_free_nonneg(self.free());
            lemma_sum_required_nonneg(l2);
            lemma_sum_owned_nonneg(l2);
            lemma_sum_pages_nonneg(self.pages@);
        }
    }

    /// Total bytes of all adopted regions.
    pub fn total_bytes(&self) -> (r: usize)
        ensures
            r == self.total_size,
    {
        self.total_size
    }

    /// Bytes charged to live byte allocations and page runs together.
    pub fn used_bytes(&self) -> (r: usize)
        ensures
            r == self.used_size,
    {
        self.used_size
    }

    /// Bytes not charged to any allocation.
    pub fn available_bytes(&self) -> (r: usize)
        requires
            self.wf(),
        ensures
            r == self.total_size - self.used_size,
    {
        self.total_size - self.used_size
    }

    /// Serve a run of `num_pages` whole pages from the high end.  The
    /// alignment must be a multiple of the page size and a power of two in
    /// page units (`InvalidParam` otherwise); the run fails with
    /// `NoMemory` when it would close the gap to the byte cursor.  On
    /// success the page cursor drops by the run's bytes and the new cursor
    /// is the run's base address.
    pub fn alloc_pages(&mut self, num_pages: usize, align_pow2: usize) -> (r: Result<
        usize,
        AllocError,
    >)
        requires
            old(self).wf(),
            PAGE_SIZE >= 1,
        ensures
            final(self).wf(),
            final(self).total_size == old(self).total_size,
            final(self).left_index == old(self).left_index,
            final(self).free() == old(self).free(),
            final(self).lives() == old(self).lives(),
            final(self).bounds@ == old(self).bounds@,
            !page_align_ok(align_pow2 as int, PAGE_SIZE as int) ==> r == Err::<usize, AllocError>(
                AllocError::InvalidParam,
            ) && *final(self) == *old(self),
            page_align_ok(align_pow2 as int, PAGE_SIZE as int) ==> {
                let sz = num_pages * PAGE_SIZE;
                &&& (sz >= old(self).right_index - old(self).left_index ==> r == Err::<
                    usize,
                    AllocError,
                >(AllocError::NoMemory) && *final(self) == *old(self))
                &&& (sz < old(self).right_index - old(self).left_index ==> {
                    &&& r == Ok::<usize, AllocError>((old(self).right_index - sz) as usize)
                    &&& final(self).right_index == old(self).right_index - sz
                    &&& final(self).used_size == old(self).used_size + sz
                    &&& final(self).pages@ == (if sz > 0 {
                        old(self).pages@.push(sz as int)
                    } else {
                        old(self).pages@
                    })
                })
            },
    {
        if align_pow2 % PAGE_SIZE != 0 {
            return Err(AllocError::InvalidParam);
        }
        let units = align_pow2 / PAGE_SIZE;
        if !is_pow2(units) {
            return Err(AllocError::InvalidParam);
        }
        if num_pages > usize::MAX / PAGE_SIZE {
            proof {
                assert(num_pages * PAGE_SIZE >= self.right_index - self.left_index) by (nonlinear_arith)
                    requires
                        num_pages > usize::MAX / PAGE_SIZE,
                        PAGE_SIZE >= 1,
                        self.right_index <= usize::MAX,
                        self.left_index >= 0,
                {
                }
            }
            return Err(AllocError::NoMemory);
        }
        proof {
            assert(num_pages * PAGE_SIZE <= usize::MAX) by (nonlinear_arith)
                requires
                    num_pages <= usize::MAX / PAGE_SIZE,
                    PAGE_SIZE >= 1,
            {
            }
        }
        let size = num_pages * PAGE_SIZE;
        if size >= self.right_index - self.left_index {
            return Err(AllocError::NoMemory);
        }
        proof {
            lemma_sum_required_nonneg(self.lives());
            lemma_sum_pages_nonneg(self.pages@);
            lemma_sum_free_nonneg(self.free());
            lemma_sum_owned_nonneg(self.lives());
        }
        self.right_index = self.right_index - size;
        self.used_size = self.used_size + size;
        if size > 0 {
            self.pages = Ghost(self.pages@.push(size as int));
            proof {
                assert(self.pages@.drop_last() =~= old(self).pages@);
            }
        }
        Ok(self.right_index)
    }

    /// Return a run of pages.  Only the most recently allocated run can
    /// actually be freed: when `pos` equals the page cursor the cursor
    /// rises back over the run, otherwise the call is silently ignored.
    pub fn dealloc_pages(&mut self, pos: usize, num_pages: usize)
        requires
            old(self).wf(),
            pos == old(self).right_index && num_pages > 0 ==> old(self).pages@.len() > 0 && old(
                self,
            ).pages@.last() == num_pages * PAGE_SIZE,
        ensures
            final(self).wf(),
            final(self).total_size == old(self).total_size,
            final(self).left_index == old(self).left_index,
            final(self).free() == old(self).free(),
            final(self).lives() == old(self).lives(),
            final(self).bounds@ == old(self).bounds@,
            pos != old(self).right_index ==> *final(self) == *old(self),
            pos == old(self).right_index ==> {
                &&& final(self).right_index == pos + num_pages * PAGE_SIZE
                &&& final(self).used_size == old(self).used_size - num_pages * PAGE_SIZE
                &&& final(self).pages@ == (if num_pages > 0 {
                    old(self).pages@.drop_last()
                } else {
                    old(self).pages@
                })
            },
    {
        if pos != self.right_index {
            return;
        }
        if num_pages == 0 {
            return;
        }
        proof {
            lemma_sum_pages_nonneg(self.pages@);
            lemma_sum_required_nonneg(self.lives());
            assert(num_pages * PAGE_SIZE == self.pages@.last());
        }
        let size = num_pages * PAGE_SIZE;
        self.right_index = self.right_index + size;
        self.used_size = self.used_size - size;
        self.pages = Ghost(self.pages@.drop_last());
        proof {
            assert(forall|k: int|
                0 <= k < self.pages@.len() ==> self.pages@[k] == old(self).pages@[k]);
        }
    }

    /// Whole pages not charged to any allocation.
    pub fn available_pages(&self) -> (r: usize)
        requires
            self.wf(),
            PAGE_SIZE >= 1,
        ensures
            r == (self.total_size - self.used_size) / PAGE_SIZE as int,
    {
        (self.total_size - self.used_size) / PAGE_SIZE
    }

    /// Whole pages in all adopted regions.
    pub fn total_pages(&self) -> (r: usize)
        requires
            PAGE_SIZE >= 1,
        ensures
            r == self.total_size as int / PAGE_SIZE as int,
    {
        self.total_size / PAGE_SIZE
    }

    /// Whole pages charged to allocations.
    pub fn used_pages(&self) -> (r: usize)
        requires
            PAGE_SIZE >= 1,
        ensures
            r == self.used_size as int / PAGE_SIZE as int,
    {
        self.used_size / PAGE_SIZE
    }
}

/// Conservation for the early allocator: bytes charged to live byte
/// allocations and page runs, plus the bytes still available, add up to
/// the region total after every call.
pub proof fn lemma_early_conservation<const PAGE_SIZE: usize>(a: &EarlyAllocator<PAGE_SIZE>)
    requires
        a.wf(),
    ensures
        a.used_size + (a.total_size - a.used_size) == a.total_size,
        a.used_size <= a.total_size,
{
}

/// No-overlap for the byte side of the early allocator: two distinct live
/// byte allocations occupy disjoint ranges `[ptr, ptr + required)`.  (A
/// byte allocation and a page run can overlap: the byte cursor does not
/// account for header bytes, so a block carved at the byte high-water mark
/// may reach past the page cursor.)
pub proof fn lemma_early_no_overlap<const PAGE_SIZE: usize>(
    a: &EarlyAllocator<PAGE_SIZE>,
    i: int,
    j: int,
)
    requires
        a.wf(),
        0 <= i < a.lives().len(),
        0 <= j < a.lives().len(),
        i != j,
    ensures
        disjoint(
            a.lives()[i].ptr,
            a.lives()[i].ptr + a.lives()[i].required,
            a.lives()[j].ptr,
            a.lives()[j].ptr + a.lives()[j].required,
        ),
{
    assert(disjoint(a.lives()[i].lo(), a.lives()[i].hi(), a.lives()[j].lo(), a.lives()[j].hi()));
    assert(a.lives()[i].owned >= HEADER_SIZE + a.lives()[i].required);
    assert(a.lives()[j].owned >= HEADER_SIZE + a.lives()[j].required);
}

/// Stack discipline: a successful `alloc_pages` moves the page cursor down
/// by the run's bytes and returns the new cursor, and `dealloc_pages` at
/// exactly that address moves the cursor back up by the same amount, so
/// the cursor returns to its pre-allocation value.  (`dealloc_pages` at
/// any other address leaves the cursor unchanged, as its contract states.)
pub proof fn lemma_page_stack_discipline<const PAGE_SIZE: usize>(
    pre: &EarlyAllocator<PAGE_SIZE>,
    mid: &EarlyAllocator<PAGE_SIZE>,
    post: &EarlyAllocator<PAGE_SIZE>,
    ret: int,
    num_pages: int,
)
    requires
        ret == pre.right_index - num_pages * PAGE_SIZE,
        mid.right_index == ret,
        post.right_index == ret + num_pages * PAGE_SIZE,
    ensures
        post.right_index == pre.right_index,
{
}

/// Boundary failure: right after `init(start, size)` the gap between the
/// cursors is exactly `size`, so a page request of `count * PAGE_SIZE >=
/// size` bytes meets the `NoMemory` case of `alloc_pages`'s contract.
pub proof fn lemma_boundary_failure<const PAGE_SIZE: usize>(
    a: &EarlyAllocator<PAGE_SIZE>,
    start: int,
    size: int,
    count: int,
)
    requires
        a.left_index == start,
        a.right_index == start + size,
        count * PAGE_SIZE >= size,
    ensures
        count * PAGE_SIZE >= a.right_index - a.left_index,
{
}

} // verus!
