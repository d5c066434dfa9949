//! The general-purpose byte allocator: first-fit allocation over a
//! free-list with block splitting, deallocation with a single forward
//! coalescing pass, and an optional hot-size pool fast path in front of the
//! free list for a fixed catalog of sizes.

use crate::freelist::{
    blocks_disjoint, blocks_fit, carve, carve_owned, carve_splits, disjoint, find_fit, first_fit,
    free_lives_disjoint, lemma_first_fit, lemma_live_index_unique, lemma_merge_disjoint,
    lemma_merge_fit, lemma_merge_range_disjoint, lemma_merge_sum, lemma_sum_free_cons,
    lemma_sum_free_elem, lemma_sum_free_nonneg, lemma_sum_free_remove, lemma_sum_free_update,
    lemma_sum_owned_nonneg, lemma_sum_owned_push, lemma_sum_owned_remove, lemma_sum_required_elem,
    lemma_sum_required_nonneg, lemma_sum_required_remove, live_index, lives_disjoint, lives_fit,
    merge_pass, merge_pass_spec, range_free_disjoint, range_lives_disjoint, required_for, sum_free,
    sum_owned, sum_required, FreeBlock, LiveAlloc, HEADER_SIZE,
};
use crate::AllocError;
use vstd::prelude::*;

verus! {

/// One entry of the hot-size catalog: requests of exactly `size` bytes are
/// served from the dedicated buffer `[base, base + capacity)` and counted,
/// bypassing the free list; the buffer is never returned to it.
#[derive(Clone, Copy, Debug, PartialEq, Eq, Structural)]
pub struct PoolEntry {
    /// The catalog size this entry serves.
    pub size: usize,
    /// Base address of the entry's dedicated buffer.
    pub base: usize,
    /// Whole extent of the buffer, bookkeeping slack included.
    pub capacity: usize,
    /// How many allocation requests this entry has served.
    pub count: usize,
}

/// The catalog entries are internally consistent and serve distinct sizes.
pub open spec fn pools_wf(p: Seq<PoolEntry>) -> bool {
    &&& forall|i: int|
        0 <= i < p.len() ==> {
            let e = #[trigger] p[i];
            &&& e.capacity >= 1
            &&& e.capacity >= e.size
            &&& e.base + e.capacity <= usize::MAX
        }
    &&& forall|i: int, j: int|
        0 <= i < p.len() && 0 <= j < p.len() && i != j ==> (#[trigger] p[i]).size != (
        #[trigger] p[j]).size
}

/// Some catalog entry serves exactly `size` bytes.
pub open spec fn pool_match(p: Seq<PoolEntry>, size: int) -> bool {
    exists|i: int| 0 <= i < p.len() && (#[trigger] p[i]).size == size
}

/// Index of the catalog entry serving exactly `size` bytes.
pub open spec fn pool_index(p: Seq<PoolEntry>, size: int) -> int {
    choose|i: int| 0 <= i < p.len() && (#[trigger] p[i]).size == size
}

/// The address `x` falls inside some catalog buffer.
pub open spec fn in_pool(p: Seq<PoolEntry>, x: int) -> bool {
    exists|i: int| 0 <= i < p.len() && (#[trigger] p[i]).base <= x < p[i].base + p[i].capacity
}

/// No catalog buffer overlaps a free block.
pub open spec fn pools_free_disjoint(p: Seq<PoolEntry>, s: Seq<FreeBlock>) -> bool {
    forall|i: int, j: int|
        0 <= i < p.len() && 0 <= j < s.len() ==> disjoint(
            (#[trigger] p[i]).base as int,
            p[i].base + p[i].capacity,
            (#[trigger] s[j]).addr as int,
            s[j].end(),
        )
}

/// No catalog buffer overlaps a live allocation.
pub open spec fn pools_lives_disjoint(p: Seq<PoolEntry>, l: Seq<LiveAlloc>) -> bool {
    forall|i: int, j: int|
        0 <= i < p.len() && 0 <= j < l.len() ==> disjoint(
            (#[trigger] p[i]).base as int,
            p[i].base + p[i].capacity,
            (#[trigger] l[j]).lo(),
            l[j].hi(),
        )
}

/// A request counter after one more request, saturating at the word's top
/// rather than wrapping.
pub open spec fn bump(c: usize) -> usize {
    if c == usize::MAX {
        c
    } else {
        (c + 1) as usize
    }
}

/// Carving a request out of a fitting block preserves every part of the
/// allocator's invariant, and moves exactly the carved extent from the free
/// side to the owned side.
pub(crate) proof fn lemma_carve_preserves(
    f: Seq<FreeBlock>,
    l: Seq<LiveAlloc>,
    p: Seq<PoolEntry>,
    j: int,
    req: int,
)
    requires
        blocks_fit(f),
        lives_fit(l),
        blocks_disjoint(f),
        lives_disjoint(l),
        free_lives_disjoint(f, l),
        pools_free_disjoint(p, f),
        pools_lives_disjoint(p, l),
        0 <= j < f.len(),
        0 <= req <= f[j].size,
    ensures
        ({
            let f2 = carve(f, j, req);
            let la = LiveAlloc {
                ptr: f[j].addr + HEADER_SIZE,
                required: req,
                owned: carve_owned(f, j, req),
            };
            let l2 = l.push(la);
            &&& blocks_fit(f2)
            &&& lives_fit(l2)
            &&& blocks_disjoint(f2)
            &&& lives_disjoint(l2)
            &&& free_lives_disjoint(f2, l2)
            &&& pools_free_disjoint(p, f2)
            &&& pools_lives_disjoint(p, l2)
            &&& sum_free(f2) + sum_owned(l2) == sum_free(f) + sum_owned(l)
            &&& sum_required(l2) == sum_required(l) + req
        }),
{
    let b = f[j];
    assert(b.end() <= usize::MAX);
    let la = LiveAlloc { ptr: b.addr + HEADER_SIZE, required: req, owned: carve_owned(f, j, req) };
    let l2 = l.push(la);
    lemma_sum_owned_push(l, la);
    assert(forall|k: int| 0 <= k < l.len() ==> #[trigger] l2[k] == l[k]);
    assert(l2[l.len() as int] == la);
    assert(la.lo() == b.addr);
    if carve_splits(f, j, req) {
        let nb = FreeBlock {
            addr: (b.addr + HEADER_SIZE + req) as usize,
            size: (b.size - req - HEADER_SIZE) as usize,
        };
        assert(nb.addr == b.addr + HEADER_SIZE + req);
        assert(nb.end() == b.end());
        assert(la.hi() == nb.addr);
        let f2 = f.update(j, nb);
        assert(carve(f, j, req) == f2);
        lemma_sum_free_update(f, j, nb);
        assert(forall|k: int| 0 <= k < f.len() && k != j ==> #[trigger] f2[k] == f[k]);
        assert(blocks_fit(f2));
        assert(blocks_disjoint(f2)) by {
            assert forall|x: int, y: int|
                0 <= x < f2.len() && 0 <= y < f2.len() && x != y implies disjoint(
                (#[trigger] f2[x]).addr as int,
                f2[x].end(),
                (#[trigger] f2[y]).addr as int,
                f2[y].end(),
            ) by {
                assert(disjoint(f[x].addr as int, f[x].end(), f[y].addr as int, f[y].end()));
            }
        }
        assert(lives_fit(l2));
        assert(lives_disjoint(l2)) by {
            assert forall|x: int, y: int|
                0 <= x < l2.len() && 0 <= y < l2.len() && x != y implies disjoint(
                (#[trigger] l2[x]).lo(),
                l2[x].hi(),
                (#[trigger] l2[y]).lo(),
                l2[y].hi(),
            ) by {
                if x < l.len() && y < l.len() {
                } else {
                    let k = if x < l.len() { x } else { y };
                    assert(disjoint(b.addr as int, b.end(), l[k].lo(), l[k].hi()));
                }
            }
        }
        assert(free_lives_disjoint(f2, l2)) by {
            assert forall|x: int, y: int|
                0 <= x < f2.len() && 0 <= y < l2.len() implies disjoint(
                (#[trigger] f2[x]).addr as int,
                f2[x].end(),
                (#[trigger] l2[y]).lo(),
                l2[y].hi(),
            ) by {
                if y < l.len() {
                    assert(disjoint(f[x].addr as int, f[x].end(), l[y].lo(), l[y].hi()));
                } else {
                    if x != j {
                        assert(disjoint(f[x].addr as int, f[x].end(), b.addr as int, b.end()));
                    }
                }
            }
        }
        assert(pools_free_disjoint(p, f2)) by {
            assert forall|x: int, y: int|
                0 <= x < p.len() && 0 <= y < f2.len() implies disjoint(
                (#[trigger] p[x]).base as int,
                p[x].base + p[x].capacity,
                (#[trigger] f2[y]).addr as int,
                f2[y].end(),
            ) by {
                assert(disjoint(p[x].base as int, p[x].base + p[x].capacity, f[y].addr as int, f[y].end()));
            }
        }
        assert(pools_lives_disjoint(p, l2)) by {
            assert forall|x: int, y: int|
                0 <= x < p.len() && 0 <= y < l2.len() implies disjoint(
                (#[trigger] p[x]).base as int,
                p[x].base + p[x].capacity,
                (#[trigger] l2[y]).lo(),
                l2[y].hi(),
            ) by {
                if y < l.len() {
                } else {
                    assert(disjoint(p[x].base as int, p[x].base + p[x].capacity, b.addr as int, b.end()));
                }
            }
        }
    } else {
        let f2 = f.remove(j);
        assert(carve(f, j, req) == f2);
        lemma_sum_free_remove(f, j);
        assert(la.hi() == b.end());
        assert(forall|k: int|
            0 <= k < f2.len() ==> #[trigger] f2[k] == (if k < j {
                f[k]
            } else {
                f[k + 1]
            }));
        assert(blocks_fit(f2));
        assert(blocks_disjoint(f2));
        assert(lives_fit(l2));
        assert(lives_disjoint(l2)) by {
            assert forall|x: int, y: int|
                0 <= x < l2.len() && 0 <= y < l2.len() && x != y implies disjoint(
                (#[trigger] l2[x]).lo(),
                l2[x].hi(),
                (#[trigger] l2[y]).lo(),
                l2[y].hi(),
            ) by {
                if x < l.len() && y < l.len() {
                } else {
                    let k = if x < l.len() { x } else { y };
                    assert(disjoint(b.addr as int, b.end(), l[k].lo(), l[k].hi()));
                }
            }
        }
        assert(free_lives_disjoint(f2, l2)) by {
            assert forall|x: int, y: int|
                0 <= x < f2.len() && 0 <= y < l2.len() implies disjoint(
                (#[trigger] f2[x]).addr as int,
                f2[x].end(),
                (#[trigger] l2[y]).lo(),
                l2[y].hi(),
            ) by {
                let xf = if x < j {
                    x
                } else {
                    x + 1
                };
                assert(f2[x] == f[xf]);
                if y < l.len() {
                    assert(disjoint(f[xf].addr as int, f[xf].end(), l[y].lo(), l[y].hi()));
                } else {
                    assert(disjoint(f[xf].addr as int, f[xf].end(), b.addr as int, b.end()));
                }
            }
        }
        assert(pools_free_disjoint(p, f2)) by {
            assert forall|x: int, y: int|
                0 <= x < p.len() && 0 <= y < f2.len() implies disjoint(
                (#[trigger] p[x]).base as int,
                p[x].base + p[x].capacity,
                (#[trigger] f2[y]).addr as int,
                f2[y].end(),
            ) by {
                let yf = if y < j {
                    y
                } else {
                    y + 1
                };
                assert(disjoint(p[x].base as int, p[x].base + p[x].capacity, f[yf].addr as int, f[yf].end()));
            }
        }
        assert(pools_lives_disjoint(p, l2)) by {
            assert forall|x: int, y: int|
                0 <= x < p.len() && 0 <= y < l2.len() implies disjoint(
                (#[trigger] p[x]).base as int,
                p[x].base + p[x].capacity,
                (#[trigger] l2[y]).lo(),
                l2[y].hi(),
            ) by {
                if y < l.len() {
                } else {
                    assert(disjoint(p[x].base as int, p[x].base + p[x].capacity, b.addr as int, b.end()));
                }
            }
        }
    }
}

/// The general byte allocator: a region total, the bytes charged to live
/// allocations, the free list in list order, the hot-size catalog, and the
/// ghost record of live allocations.
pub struct LabByteAllocator {
    /// Start address of the first region adopted.
    pub start: usize,
    /// Bytes of all adopted regions together.
    pub total_size: usize,
    /// Bytes charged to live allocations.
    pub used_size: usize,
    /// The free list, head first.
    pub free_list: Vec<FreeBlock>,
    /// The hot-size catalog.
    pub pools: Vec<PoolEntry>,
    /// Ghost record of the allocations currently checked out.
    pub live: Ghost<Seq<LiveAlloc>>,
}

impl LabByteAllocator {
    /// The free list as a sequence of descriptors, head first.
    pub open spec fn free(&self) -> Seq<FreeBlock> {
        self.free_list@
    }

    /// The live allocations.
    pub open spec fn lives(&self) -> Seq<LiveAlloc> {
        self.live@
    }

    /// The allocator's invariant: descriptors fit the machine word, all
    /// free blocks, live allocations and catalog buffers are pairwise
    /// disjoint, `used_size` is exactly the bytes charged to live
    /// allocations, and the region accounts for everything claimed.
    pub open spec fn wf(&self) -> bool {
        &&& blocks_fit(self.free())
        &&& lives_fit(self.lives())
        &&& blocks_disjoint(self.free())
        &&& lives_disjoint(self.lives())
        &&& free_lives_disjoint(self.free(), self.lives())
        &&& pools_wf(self.pools@)
        &&& pools_free_disjoint(self.pools@, self.free())
        &&& pools_lives_disjoint(self.pools@, self.lives())
        &&& self.used_size == sum_required(self.lives())
        &&& sum_free(self.free()) + sum_owned(self.lives()) <= self.total_size
        &&& self.used_size <= self.total_size
    }

    /// An empty allocator owning no region; `init` must be called before
    /// any allocation can succeed.
    pub fn new() -> (r: Self)
        ensures
            r.wf(),
            r.start == 0,
            r.total_size == 0,
            r.used_size == 0,
            r.free() == Seq::<FreeBlock>::empty(),
            r.lives() == Seq::<LiveAlloc>::empty(),
            r.pools@ == Seq::<PoolEntry>::empty(),
    {
        Self {
            start: 0,
            total_size: 0,
            used_size: 0,
            free_list: Vec::new(),
            pools: Vec::new(),
            live: Ghost(Seq::empty()),
        }
    }

    /// Adopt `[start, start + size)` as the sole region: one block spanning
    /// the whole of it (minus its header) becomes the free list, and any
    /// prior state is discarded.
    pub fn init(&mut self, start: usize, size: usize)
        requires
            size >= HEADER_SIZE,
            start + size <= usize::MAX,
            pools_wf(old(self).pools@),
            forall|i: int|
                0 <= i < old(self).pools@.len() ==> disjoint(
                    (#[trigger] old(self).pools@[i]).base as int,
                    old(self).pools@[i].base + old(self).pools@[i].capacity,
                    start as int,
                    start + size,
                ),
        ensures
            final(self).wf(),
            final(self).start == start,
            final(self).total_size == size,
            final(self).used_size == 0,
            final(self).free() == seq![
                FreeBlock { addr: start, size: (size - HEADER_SIZE) as usize },
            ],
            final(self).lives() == Seq::<LiveAlloc>::empty(),
            final(self).pools@ == old(self).pools@,
    {
        self.start = start;
        self.total_size = size;
        self.used_size = 0;
        self.free_list = Vec::new();
        self.free_list.push(FreeBlock { addr: start, size: size - HEADER_SIZE });
        self.live = Ghost(Seq::empty());
        proof {
            let f = self.free();
            assert(f =~= seq![FreeBlock { addr: start, size: (size - HEADER_SIZE) as usize }]);
            assert(sum_free(f) == HEADER_SIZE + (size - HEADER_SIZE) + sum_free(f.drop_first()));
            assert(f.drop_first() =~= Seq::<FreeBlock>::empty());
        }
    }

    /// Add a second region as one new block pushed to the head of the free
    /// list, grow the total, and run a coalescing pass.  Always succeeds;
    /// only address-adjacent blocks actually coalesce.
    pub fn add_memory(&mut self, start: usize, size: usize) -> (r: Result<(), AllocError>)
        requires
            old(self).wf(),
            size >= HEADER_SIZE,
            start + size <= usize::MAX,
            old(self).total_size + size <= usize::MAX,
            range_free_disjoint(old(self).free(), start as int, start + size),
            range_lives_disjoint(old(self).lives(), start as int, start + size),
            forall|i: int|
                0 <= i < old(self).pools@.len() ==> disjoint(
                    (#[trigger] old(self).pools@[i]).base as int,
                    old(self).pools@[i].base + old(self).pools@[i].capacity,
                    start as int,
                    start + size,
                ),
        ensures
            final(self).wf(),
            r == Ok::<(), AllocError>(()),
            final(self).start == old(self).start,
            final(self).total_size == old(self).total_size + size,
            final(self).used_size == old(self).used_size,
            final(self).lives() == old(self).lives(),
            final(self).pools@ == old(self).pools@,
            final(self).free() == merge_pass_spec(
                seq![FreeBlock { addr: start, size: (size - HEADER_SIZE) as usize }]
                    + old(self).free(),
            ),
    {
        let ghost f0 = self.free();
        let nb = FreeBlock { addr: start, size: size - HEADER_SIZE };
        self.free_list.insert(0, nb);
        self.total_size = self.total_size + size;
        let ghost s0 = self.free();
        proof {
            assert(s0 =~= seq![nb] + f0);
            assert(blocks_fit(s0)) by {
                assert(forall|k: int| 1 <= k < s0.len() ==> #[trigger] s0[k] == f0[k - 1]);
            }
            assert(blocks_disjoint(s0)) by {
                assert(forall|k: int| 1 <= k < s0.len() ==> #[trigger] s0[k] == f0[k - 1]);
            }
        }
        merge_pass(&mut self.free_list);
        proof {
            lemma_merge_fit(s0);
            lemma_merge_sum(s0);
            lemma_merge_disjoint(s0);
            lemma_sum_free_cons(nb, f0);
            let l = self.lives();
            assert forall|i: int, j: int|
                0 <= i < self.free().len() && 0 <= j < l.len() implies disjoint(
                (#[trigger] self.free()[i]).addr as int,
                self.free()[i].end(),
                (#[trigger] l[j]).lo(),
                l[j].hi(),
            ) by {
                assert(range_free_disjoint(s0, l[j].lo(), l[j].hi())) by {
                    assert(forall|k: int| 1 <= k < s0.len() ==> #[trigger] s0[k] == f0[k - 1]);
                }
                assert(l[j].lo() < l[j].hi());
                lemma_merge_range_disjoint(s0, l[j].lo(), l[j].hi());
            }
            let p = self.pools@;
            assert forall|i: int, j: int|
                0 <= i < p.len() && 0 <= j < self.free().len() implies disjoint(
                (#[trigger] p[i]).base as int,
                p[i].base + p[i].capacity,
                (#[trigger] self.free()[j]).addr as int,
                self.free()[j].end(),
            ) by {
                assert(range_free_disjoint(s0, p[i].base as int, p[i].base + p[i].capacity)) by {
                    assert(forall|k: int| 1 <= k < s0.len() ==> #[trigger] s0[k] == f0[k - 1]);
                }
                lemma_merge_range_disjoint(s0, p[i].base as int, p[i].base + p[i].capacity);
            }
            lemma_sum_free_nonneg(self.free());
            lemma_sum_owned_nonneg(self.lives());
            lemma_sum_required_nonneg(self.lives());
        }
        Ok(())
    }

    /// Register one hot-size catalog entry backed by the dedicated buffer
    /// `[base, base + capacity)`.
    pub fn add_pool(&mut self, size: usize, base: usize, capacity: usize)
        requires
            old(self).wf(),
            capacity >= 1,
            capacity >= size,
            base + capacity <= usize::MAX,
            !pool_match(old(self).pools@, size as int),
            range_free_disjoint(old(self).free(), base as int, base + capacity),
            range_lives_disjoint(old(self).lives(), base as int, base + capacity),
        ensures
            final(self).wf(),
            final(self).pools@ == old(self).pools@.push(
                PoolEntry { size, base, capacity, count: 0 },
            ),
            final(self).start == old(self).start,
            final(self).total_size == old(self).total_size,
            final(self).used_size == old(self).used_size,
            final(self).free() == old(self).free(),
            final(self).lives() == old(self).lives(),
    {
        self.pools.push(PoolEntry { size, base, capacity, count: 0 });
        proof {
            let p = self.pools@;
            let p0 = old(self).pools@;
            assert(forall|i: int| 0 <= i < p0.len() ==> #[trigger] p[i] == p0[i]);
            assert(pools_wf(p)) by {
                assert forall|i: int, j: int|
                    0 <= i < p.len() && 0 <= j < p.len() && i != j implies (#[trigger] p[i]).size
                    != (#[trigger] p[j]).size by {
                    if i < p0.len() && j < p0.len() {
                    } else {
                        let k = if i < p0.len() { i } else { j };
                        assert(p[k].size != size);
                    }
                }
            }
        }
    }

    /// Serve an allocation request.  A request whose size exactly matches
    /// a hot-size catalog entry is answered from that entry's buffer and
    /// counted, bypassing the free list.  Otherwise the request is charged
    /// `max(size, align)` bytes and served first-fit from the free list:
    /// the chosen block is split when the remainder can hold more than one
    /// header, else consumed whole.  Fails with `NoMemory` if and only if
    /// no block is large enough.
    #[verifier::loop_isolation(false)]
    pub fn allocate(&mut self, size: usize, align: usize) -> (r: Result<usize, AllocError>)
        requires
            old(self).wf(),
        ensures
            final(self).wf(),
            final(self).start == old(self).start,
            final(self).total_size == old(self).total_size,
            pool_match(old(self).pools@, size as int) ==> {
                let pi = pool_index(old(self).pools@, size as int);
                let e = old(self).pools@[pi];
                &&& r == Ok::<usize, AllocError>(e.base)
                &&& final(self).pools@ == old(self).pools@.update(
                    pi,
                    PoolEntry {
                        size: e.size,
                        base: e.base,
                        capacity: e.capacity,
                        count: bump(e.count),
                    },
                )
                &&& final(self).free() == old(self).free()
                &&& final(self).lives() == old(self).lives()
                &&& final(self).used_size == old(self).used_size
            },
            !pool_match(old(self).pools@, size as int) ==> {
                let req = required_for(size as int, align as int);
                let f = old(self).free();
                let j = first_fit(f, req);
                &&& final(self).pools@ == old(self).pools@
                &&& (j == -1 ==> r == Err::<usize, AllocError>(AllocError::NoMemory)
                    && final(self).free() == f
                    && final(self).lives() == old(self).lives()
                    && final(self).used_size == old(self).used_size)
                &&& (j != -1 ==> {
                    &&& r == Ok::<usize, AllocError>((f[j].addr + HEADER_SIZE) as usize)
                    &&& final(self).free() == carve(f, j, req)
                    &&& final(self).lives() == old(self).lives().push(
                        LiveAlloc {
                            ptr: f[j].addr + HEADER_SIZE,
                            required: req,
                            owned: carve_owned(f, j, req),
                        },
                    )
                    &&& final(self).used_size == old(self).used_size + req
                })
            },
    {
        let ghost p0 = self.pools@;
        let mut pi: usize = 0;
        while pi < self.pools.len()
            invariant
                pi <= p0.len(),
                self == old(self),
                p0 == self.pools@,
                forall|k: int| 0 <= k < pi ==> (#[trigger] p0[k]).size != size,
            decreases p0.len() - pi,
        {
            let e = self.pools[pi];
            if e.size == size {
                let newc = if e.count == usize::MAX {
                    e.count
                } else {
                    e.count + 1
                };
                self.pools.set(
                    pi,
                    PoolEntry { size: e.size, base: e.base, capacity: e.capacity, count: newc },
                );
                proof {
                    assert(pool_match(p0, size as int));
                    let pidx = pool_index(p0, size as int);
                    assert(0 <= pidx < p0.len() && p0[pidx].size == size);
                    if pidx != pi {
                        assert(p0[pidx].size != p0[pi as int].size);
                    }
                    assert(pidx == pi);
                    let p2 = self.pools@;
                    assert(forall|k: int|
                        0 <= k < p2.len() ==> (#[trigger] p2[k]).base == p0[k].base && p2[k].capacity
                            == p0[k].capacity && p2[k].size == p0[k].size);
                    assert(pools_wf(p2));
                    assert(pools_free_disjoint(p2, self.free()));
                    assert(pools_lives_disjoint(p2, self.lives()));
                }
                return Ok(e.base);
            }
            pi = pi + 1;
        }
        proof {
            assert(!pool_match(p0, size as int));
        }
        let required = if size >= align {
            size
        } else {
            align
        };
        let ghost req = required as int;
        let ghost f = self.free();
        let ghost l0 = self.lives();
        let n_blocks = self.free_list.len();
        proof {
            assert(f.len() == n_blocks);
        }
        let found = find_fit(&self.free_list, required);
        proof {
            lemma_first_fit(f, req);
        }
        match found {
            None => Err(AllocError::NoMemory),
            Some(j) => {
                let ghost jj = j as int;
                let b = self.free_list[j];
                proof {
                    assert(found == Some(j));
                    assert(first_fit(f, req) == jj);
                    assert(f[jj].size >= req);
                    assert(f[jj].end() <= usize::MAX);
                    lemma_sum_free_elem(f, jj);
                    lemma_sum_required_nonneg(l0);
                    lemma_sum_owned_nonneg(l0);
                    assert(self.used_size + required <= self.total_size);
                }
                let ptr = b.addr + HEADER_SIZE;
                if b.size - required > HEADER_SIZE {
                    let nb = FreeBlock {
                        addr: b.addr + HEADER_SIZE + required,
                        size: b.size - required - HEADER_SIZE,
                    };
                    self.free_list.set(j, nb);
                } else {
                    self.free_list.remove(j);
                }
                self.used_size = self.used_size + required;
                let ghost la = LiveAlloc {
                    ptr: ptr as int,
                    required: req,
                    owned: carve_owned(f, jj, req),
                };
                self.live = Ghost(l0.push(la));
                proof {
                    lemma_carve_preserves(f, l0, p0, jj, req);
                    assert(self.free() =~= carve(f, jj, req));
                    lemma_sum_required_nonneg(self.lives());
                    lemma_sum_free_nonneg(self.free());
                }
                Ok(ptr)
            },
        }
    }

    /// Return an allocation.  A pointer that falls inside a catalog buffer
    /// is ignored (the buffer never joins the free list).  Otherwise the
    /// caller must hand back the size and alignment of the original
    /// request; the block's header is reconstructed just below the
    /// pointer, the block is pushed onto the head of the free list, and a
    /// coalescing pass runs.
    #[verifier::loop_isolation(false)]
    pub fn deallocate(&mut self, ptr: usize, size: usize, align: usize)
        requires
            old(self).wf(),
            !in_pool(old(self).pools@, ptr as int) ==> exists|i: int|
                0 <= i < old(self).lives().len() && (#[trigger] old(self).lives()[i]).ptr
                    == ptr as int && old(self).lives()[i].required == required_for(
                    size as int,
                    align as int,
                ),
        ensures
            final(self).wf(),
            final(self).start == old(self).start,
            final(self).total_size == old(self).total_size,
            final(self).pools@ == old(self).pools@,
            in_pool(old(self).pools@, ptr as int) ==> final(self).free() == old(self).free()
                && final(self).lives() == old(self).lives()
                && final(self).used_size == old(self).used_size,
            !in_pool(old(self).pools@, ptr as int) ==> {
                let req = required_for(size as int, align as int);
                let i = live_index(old(self).lives(), ptr as int);
                &&& final(self).used_size == old(self).used_size - req
                &&& final(self).lives() == old(self).lives().remove(i)
                &&& final(self).free() == merge_pass_spec(
                    seq![FreeBlock { addr: (ptr - HEADER_SIZE) as usize, size: required_for(size as int, align as int) as usize }]
                        + old(self).free(),
                )
            },
    {
        let ghost p0 = self.pools@;
        let mut pi: usize = 0;
        while pi < self.pools.len()
            invariant
                pi <= p0.len(),
                self == old(self),
                p0 == self.pools@,
                pools_wf(p0),
                forall|k: int|
                    0 <= k < pi ==> ((#[trigger] p0[k]).base > ptr as int || p0[k].base
                        + p0[k].capacity <= ptr as int),
            decreases p0.len() - pi,
        {
            let e = self.pools[pi];
            if ptr >= e.base && ptr - e.base < e.capacity {
                proof {
                    assert(in_pool(p0, ptr as int));
                }
                return;
            }
            pi = pi + 1;
        }
        proof {
            assert(!in_pool(p0, ptr as int));
        }
        let required = if size >= align {
            size
        } else {
            align
        };
        let ghost req = required as int;
        let ghost f0 = self.free();
        let ghost l0 = self.lives();
        let ghost i = live_index(l0, ptr as int);
        proof {
            lemma_live_index_unique(l0, ptr as int);
            assert(l0[i].required == req) by {
                let w = choose|w: int|
                    0 <= w < l0.len() && (#[trigger] l0[w]).ptr == ptr as int && l0[w].required
                        == req;
                assert(w == i);
            }
            lemma_sum_required_elem(l0, i);
        }
        self.used_size = self.used_size - required;
        let nb = FreeBlock { addr: ptr - HEADER_SIZE, size: required };
        self.free_list.insert(0, nb);
        self.live = Ghost(l0.remove(i));
        let ghost s0 = self.free();
        proof {
            assert(s0 =~= seq![nb] + f0);
            let la = l0[i];
            assert(nb.addr == la.lo());
            assert(nb.end() == la.lo() + HEADER_SIZE + req);
            assert(nb.end() <= la.hi());
            assert(blocks_fit(s0) && blocks_disjoint(s0)) by {
                assert(forall|k: int| 1 <= k < s0.len() ==> #[trigger] s0[k] == f0[k - 1]);
                assert forall|k: int| 1 <= k < s0.len() implies disjoint(
                    (#[trigger] s0[k]).addr as int,
                    s0[k].end(),
                    nb.addr as int,
                    nb.end(),
                ) by {
                    assert(disjoint(f0[k - 1].addr as int, f0[k - 1].end(), la.lo(), la.hi()));
                }
            }
        }
        merge_pass(&mut self.free_list);
        proof {
            let la = l0[i];
            let l2 = self.lives();
            assert(forall|k: int|
                0 <= k < l2.len() ==> #[trigger] l2[k] == (if k < i {
                    l0[k]
                } else {
                    l0[k + 1]
                }));
            lemma_merge_fit(s0);
            lemma_merge_sum(s0);
            lemma_merge_disjoint(s0);
            lemma_sum_free_cons(nb, f0);
            lemma_sum_owned_remove(l0, i);
            lemma_sum_required_remove(l0, i);
            assert(lives_fit(l2) && lives_disjoint(l2));
            assert forall|x: int, y: int|
                0 <= x < self.free().len() && 0 <= y < l2.len() implies disjoint(
                (#[trigger] self.free()[x]).addr as int,
                self.free()[x].end(),
                (#[trigger] l2[y]).lo(),
                l2[y].hi(),
            ) by {
                let yl = if y < i {
                    y
                } else {
                    y + 1
                };
                assert(l2[y] == l0[yl]);
                assert(range_free_disjoint(s0, l0[yl].lo(), l0[yl].hi())) by {
                    assert(forall|k: int| 1 <= k < s0.len() ==> #[trigger] s0[k] == f0[k - 1]);
                    assert(disjoint(la.lo(), la.hi(), l0[yl].lo(), l0[yl].hi()));
                }
                assert(l0[yl].lo() < l0[yl].hi());
                lemma_merge_range_disjoint(s0, l0[yl].lo(), l0[yl].hi());
            }
            assert forall|x: int, y: int|
                0 <= x < p0.len() && 0 <= y < self.free().len() implies disjoint(
                (#[trigger] p0[x]).base as int,
                p0[x].base + p0[x].capacity,
                (#[trigger] self.free()[y]).addr as int,
                self.free()[y].end(),
            ) by {
                assert(range_free_disjoint(s0, p0[x].base as int, p0[x].base + p0[x].capacity))
                    by {
                    assert(forall|k: int| 1 <= k < s0.len() ==> #[trigger] s0[k] == f0[k - 1]);
                    assert(disjoint(p0[x].base as int, p0[x].base + p0[x].capacity, la.lo(), la.hi()));
                }
                lemma_merge_range_disjoint(s0, p0[x].base as int, p0[x].base + p0[x].capacity);
            }
            assert(pools_lives_disjoint(p0, l2));
            lemma_sum_free_nonneg(self.free());
            lemma_sum_required_nonneg(l2);
            lemma_sum_owned_nonneg(l2);
        }
    }

    /// Total bytes of all adopted regions.
    pub fn total_bytes(&self) -> (r: usize)
        ensures
            r == self.total_size,
    {
        self.total_size
    }

    /// Bytes charged to live allocations (header overhead of checked-out
    /// blocks included, free-list headers excluded).
    pub fn used_bytes(&self) -> (r: usize)
        ensures
            r == self.used_size,
    {
        self.used_size
    }

    /// Bytes not charged to live allocations.
    pub fn available_bytes(&self) -> (r: usize)
        requires
            self.wf(),
        ensures
            r == self.total_size - self.used_size,
    {
        self.total_size - self.used_size
    }
}

/// Conservation: in every reachable allocator state the bytes charged to
/// live allocations and the bytes still available add up to the region
/// total, so `used_bytes() + available_bytes() == total_bytes()` holds
/// after every call.
pub proof fn lemma_conservation(a: &LabByteAllocator)
    requires
        a.wf(),
    ensures
        a.used_size + (a.total_size - a.used_size) == a.total_size,
        a.used_size <= a.total_size,
{
}

/// No-overlap: two distinct live allocations of the general allocator
/// occupy disjoint address ranges `[ptr, ptr + required)`.
pub proof fn lemma_no_overlap(a: &LabByteAllocator, i: int, j: int)
    requires
        a.wf(),
        0 <= i < a.lives().len(),
        0 <= j < a.lives().len(),
        i != j,
    ensures
        disjoint(
            a.lives()[i].ptr,
            a.lives()[i].ptr + a.lives()[i].required,
            a.lives()[j].ptr,
            a.lives()[j].ptr + a.lives()[j].required,
        ),
{
    assert(disjoint(a.lives()[i].lo(), a.lives()[i].hi(), a.lives()[j].lo(), a.lives()[j].hi()));
    assert(a.lives()[i].owned >= HEADER_SIZE + a.lives()[i].required);
    assert(a.lives()[j].owned >= HEADER_SIZE + a.lives()[j].required);
}

} // verus!
