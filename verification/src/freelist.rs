//! The shared free-list substrate: block descriptors, the ghost record of
//! live allocations, the coalescing pass, and the lemmas both allocators
//! lean on.
//!
//! A free block is described by the address `addr` at which its header sits
//! and the count `size` of usable bytes that follow the header; the block
//! occupies the address range `[addr, addr + HEADER_SIZE + size)`.

use vstd::prelude::*;

verus! {

/// Bytes occupied by a block header in the managed region: two machine
/// words, one for the block size and one for the link to the next block.
pub const HEADER_SIZE: usize = 16;

/// Descriptor of one free block of the managed region.
#[derive(Clone, Copy, Debug, PartialEq, Eq, Structural)]
pub struct FreeBlock {
    /// Address of the block's header.
    pub addr: usize,
    /// Usable bytes following the header.
    pub size: usize,
}

impl FreeBlock {
    /// One-past-the-end address of the block, header included.
    pub open spec fn end(self) -> int {
        self.addr + HEADER_SIZE + self.size
    }
}

/// Ghost record of one live allocation: `ptr` is the address handed to the
/// caller, `required` the byte count charged against `used_size`, and
/// `owned` the whole extent of the region consumed on the allocation's
/// behalf, header included.  The allocation owns
/// `[ptr - HEADER_SIZE, ptr - HEADER_SIZE + owned)`.
pub ghost struct LiveAlloc {
    pub ptr: int,
    pub required: int,
    pub owned: int,
}

impl LiveAlloc {
    /// Low end of the owned range (the reconstructed header's address).
    pub open spec fn lo(self) -> int {
        self.ptr - HEADER_SIZE
    }

    /// One-past-the-end address of the owned range.
    pub open spec fn hi(self) -> int {
        self.ptr - HEADER_SIZE + self.owned
    }
}

/// Every block's end address fits in the machine word.
pub open spec fn blocks_fit(s: Seq<FreeBlock>) -> bool {
    forall|i: int| 0 <= i < s.len() ==> (#[trigger] s[i]).end() <= usize::MAX
}

/// Every live record is internally consistent: the pointer leaves room for
/// the header below it, the owned extent covers the header plus the charged
/// bytes, and the range fits in the machine word.
pub open spec fn lives_fit(l: Seq<LiveAlloc>) -> bool {
    forall|i: int| 0 <= i < l.len() ==> {
        let a = #[trigger] l[i];
        &&& a.ptr >= HEADER_SIZE
        &&& a.required >= 0
        &&& a.owned >= HEADER_SIZE + a.required
        &&& a.hi() <= usize::MAX
    }
}

/// Two half-open address ranges do not share a byte.
pub open spec fn disjoint(lo1: int, hi1: int, lo2: int, hi2: int) -> bool {
    hi1 <= lo2 || hi2 <= lo1
}

/// The free blocks occupy pairwise disjoint ranges.
pub open spec fn blocks_disjoint(s: Seq<FreeBlock>) -> bool {
    forall|i: int, j: int|
        0 <= i < s.len() && 0 <= j < s.len() && i != j ==> disjoint(
            (#[trigger] s[i]).addr as int,
            s[i].end(),
            (#[trigger] s[j]).addr as int,
            s[j].end(),
        )
}

/// The live allocations occupy pairwise disjoint ranges.
pub open spec fn lives_disjoint(l: Seq<LiveAlloc>) -> bool {
    forall|i: int, j: int|
        0 <= i < l.len() && 0 <= j < l.len() && i != j ==> disjoint(
            (#[trigger] l[i]).lo(),
            l[i].hi(),
            (#[trigger] l[j]).lo(),
            l[j].hi(),
        )
}

/// No free block overlaps a live allocation.
pub open spec fn free_lives_disjoint(s: Seq<FreeBlock>, l: Seq<LiveAlloc>) -> bool {
    forall|i: int, j: int|
        0 <= i < s.len() && 0 <= j < l.len() ==> disjoint(
            (#[trigger] s[i]).addr as int,
            s[i].end(),
            (#[trigger] l[j]).lo(),
            l[j].hi(),
        )
}

/// The range `[lo, hi)` is disjoint from every free block.
pub open spec fn range_free_disjoint(s: Seq<FreeBlock>, lo: int, hi: int) -> bool {
    forall|i: int| 0 <= i < s.len() ==> disjoint((#[trigger] s[i]).addr as int, s[i].end(), lo, hi)
}

/// The range `[lo, hi)` is disjoint from every live allocation.
pub open spec fn range_lives_disjoint(l: Seq<LiveAlloc>, lo: int, hi: int) -> bool {
    forall|j: int| 0 <= j < l.len() ==> disjoint((#[trigger] l[j]).lo(), l[j].hi(), lo, hi)
}

/// Region bytes claimed by the free list: each block's usable size plus its
/// header.
pub open spec fn sum_free(s: Seq<FreeBlock>) -> int
    decreases s.len(),
{
    if s.len() == 0 {
        0
    } else {
        HEADER_SIZE + s[0].size + sum_free(s.drop_first())
    }
}

/// Region bytes owned by the live allocations, headers included.
pub open spec fn sum_owned(l: Seq<LiveAlloc>) -> int
    decreases l.len(),
{
    if l.len() == 0 {
        0
    } else {
        l[0].owned + sum_owned(l.drop_first())
    }
}

/// Bytes charged against `used_size` by the live allocations.
pub open spec fn sum_required(l: Seq<LiveAlloc>) -> int
    decreases l.len(),
{
    if l.len() == 0 {
        0
    } else {
        l[0].required + sum_required(l.drop_first())
    }
}

pub proof fn lemma_sum_free_nonneg(s: Seq<FreeBlock>)
    ensures
        sum_free(s) >= 0,
    decreases s.len(),
{
    if s.len() > 0 {
        lemma_sum_free_nonneg(s.drop_first());
    }
}

pub proof fn lemma_sum_owned_nonneg(l: Seq<LiveAlloc>)
    requires
        lives_fit(l),
    ensures
        sum_owned(l) >= 0,
    decreases l.len(),
{
    if l.len() > 0 {
        assert(lives_fit(l.drop_first()));
        lemma_sum_owned_nonneg(l.drop_first());
    }
}

pub proof fn lemma_sum_required_nonneg(l: Seq<LiveAlloc>)
    requires
        lives_fit(l),
    ensures
        sum_required(l) >= 0,
        sum_required(l) <= sum_owned(l),
    decreases l.len(),
{
    if l.len() > 0 {
        assert(lives_fit(l.drop_first()));
        lemma_sum_required_nonneg(l.drop_first());
    }
}

pub proof fn lemma_sum_free_remove(s: Seq<FreeBlock>, i: int)
    requires
        0 <= i < s.len(),
    ensures
        sum_free(s.remove(i)) == sum_free(s) - HEADER_SIZE - s[i].size,
    decreases s.len(),
{
    if i == 0 {
        assert(s.remove(0) =~= s.drop_first());
    } else {
        assert(s.remove(i).drop_first() =~= s.drop_first().remove(i - 1));
        lemma_sum_free_remove(s.drop_first(), i - 1);
    }
}

pub proof fn lemma_sum_free_update(s: Seq<FreeBlock>, i: int, b: FreeBlock)
    requires
        0 <= i < s.len(),
    ensures
        sum_free(s.update(i, b)) == sum_free(s) - s[i].size + b.size,
    decreases s.len(),
{
    if i == 0 {
        assert(s.update(0, b).drop_first() =~= s.drop_first());
    } else {
        assert(s.update(i, b).drop_first() =~= s.drop_first().update(i - 1, b));
        lemma_sum_free_update(s.drop_first(), i - 1, b);
    }
}

pub proof fn lemma_sum_free_cons(b: FreeBlock, s: Seq<FreeBlock>)
    ensures
        sum_free(seq![b] + s) == HEADER_SIZE + b.size + sum_free(s),
{
    assert((seq![b] + s).drop_first() =~= s);
}

pub proof fn lemma_sum_free_elem(s: Seq<FreeBlock>, i: int)
    requires
        0 <= i < s.len(),
    ensures
        sum_free(s) >= HEADER_SIZE + s[i].size + sum_free(s.remove(i)),
        sum_free(s) >= HEADER_SIZE + s[i].size,
    decreases s.len(),
{
    lemma_sum_free_remove(s, i);
    lemma_sum_free_nonneg(s.remove(i));
}

pub proof fn lemma_sum_owned_remove(l: Seq<LiveAlloc>, i: int)
    requires
        0 <= i < l.len(),
    ensures
        sum_owned(l.remove(i)) == sum_owned(l) - l[i].owned,
    decreases l.len(),
{
    if i == 0 {
        assert(l.remove(0) =~= l.drop_first());
    } else {
        assert(l.remove(i).drop_first() =~= l.drop_first().remove(i - 1));
        lemma_sum_owned_remove(l.drop_first(), i - 1);
    }
}

pub proof fn lemma_sum_required_remove(l: Seq<LiveAlloc>, i: int)
    requires
        0 <= i < l.len(),
    ensures
        sum_required(l.remove(i)) == sum_required(l) - l[i].required,
    decreases l.len(),
{
    if i == 0 {
        assert(l.remove(0) =~= l.drop_first());
    } else {
        assert(l.remove(i).drop_first() =~= l.drop_first().remove(i - 1));
        lemma_sum_required_remove(l.drop_first(), i - 1);
    }
}

pub proof fn lemma_sum_owned_push(l: Seq<LiveAlloc>, a: LiveAlloc)
    ensures
        sum_owned(l.push(a)) == sum_owned(l) + a.owned,
        sum_required(l.push(a)) == sum_required(l) + a.required,
    decreases l.len(),
{
    if l.len() == 0 {
        assert(l.push(a)[0] == a);
        assert(l.push(a).drop_first() =~= Seq::<LiveAlloc>::empty());
        assert(sum_owned(l.push(a)) == a.owned + sum_owned(l.push(a).drop_first()));
        assert(sum_required(l.push(a)) == a.required + sum_required(l.push(a).drop_first()));
    } else {
        assert(l.push(a)[0] == l[0]);
        assert(l.push(a).drop_first() =~= l.drop_first().push(a));
        lemma_sum_owned_push(l.drop_first(), a);
        assert(sum_owned(l.push(a)) == l[0].owned + sum_owned(l.drop_first().push(a)));
        assert(sum_required(l.push(a)) == l[0].required + sum_required(l.drop_first().push(a)));
    }
}

pub proof fn lemma_sum_required_elem(l: Seq<LiveAlloc>, i: int)
    requires
        0 <= i < l.len(),
        lives_fit(l),
    ensures
        sum_required(l) >= l[i].required,
        sum_required(l) >= l[i].required + sum_required(l.remove(i)),
        sum_required(l.remove(i)) >= 0,
{
    lemma_sum_required_remove(l, i);
    assert(lives_fit(l.remove(i))) by {
        assert(forall|k: int|
            0 <= k < l.remove(i).len() ==> #[trigger] l.remove(i)[k] == if k < i {
                l[k]
            } else {
                l[k + 1]
            });
    }
    lemma_sum_required_nonneg(l.remove(i));
}

/// Some free block contains the address `x`.
pub open spec fn covers(s: Seq<FreeBlock>, x: int) -> bool {
    exists|i: int| 0 <= i < s.len() && (#[trigger] s[i]).addr <= x < s[i].end()
}

/// One forward coalescing pass over the list, exactly as the allocators
/// perform it: a block is merged with its list successor if and only if its
/// end address equals the successor's start address, and the pass stays on
/// the merged block to try its new successor next.
pub open spec fn merge_pass_spec(s: Seq<FreeBlock>) -> Seq<FreeBlock>
    decreases s.len(),
{
    if s.len() <= 1 {
        s
    } else if s[0].end() == s[1].addr {
        merge_pass_spec(
            seq![
                FreeBlock {
                    addr: s[0].addr,
                    size: (s[0].size + HEADER_SIZE + s[1].size) as usize,
                },
            ] + s.skip(2),
        )
    } else {
        seq![s[0]] + merge_pass_spec(s.skip(1))
    }
}

/// In the merging branch of `merge_pass_spec`, the merged descriptor's size
/// does not truncate and the block spans exactly the two old blocks.
proof fn lemma_merged_block(s: Seq<FreeBlock>)
    requires
        blocks_fit(s),
        s.len() >= 2,
        s[0].end() == s[1].addr,
    ensures
        ({
            let m = FreeBlock { addr: s[0].addr, size: (s[0].size + HEADER_SIZE + s[1].size) as usize };
            &&& m.size == s[0].size + HEADER_SIZE + s[1].size
            &&& m.end() == s[1].end()
            &&& blocks_fit(seq![m] + s.skip(2))
        }),
{
    assert(s[1].end() <= usize::MAX);
    assert(s[0].addr + HEADER_SIZE + s[0].size + HEADER_SIZE + s[1].size == s[1].end());
    let m = FreeBlock { addr: s[0].addr, size: (s[0].size + HEADER_SIZE + s[1].size) as usize };
    assert forall|i: int| 0 <= i < (seq![m] + s.skip(2)).len() implies (#[trigger] (seq![m]
        + s.skip(2))[i]).end() <= usize::MAX by {
        if i > 0 {
            assert((seq![m] + s.skip(2))[i] == s[i + 1]);
        }
    }
}

pub proof fn lemma_merge_fit(s: Seq<FreeBlock>)
    requires
        blocks_fit(s),
    ensures
        blocks_fit(merge_pass_spec(s)),
    decreases s.len(),
{
    if s.len() <= 1 {
    } else if s[0].end() == s[1].addr {
        lemma_merged_block(s);
        let m = FreeBlock { addr: s[0].addr, size: (s[0].size + HEADER_SIZE + s[1].size) as usize };
        lemma_merge_fit(seq![m] + s.skip(2));
    } else {
        assert(blocks_fit(s.skip(1))) by {
            assert(forall|i: int| 0 <= i < s.skip(1).len() ==> #[trigger] s.skip(1)[i] == s[i + 1]);
        }
        lemma_merge_fit(s.skip(1));
        assert forall|i: int| 0 <= i < merge_pass_spec(s).len() implies (
        #[trigger] merge_pass_spec(s)[i]).end() <= usize::MAX by {
            if i > 0 {
                assert(merge_pass_spec(s)[i] == merge_pass_spec(s.skip(1))[i - 1]);
            }
        }
    }
}

pub proof fn lemma_merge_sum(s: Seq<FreeBlock>)
    requires
        blocks_fit(s),
    ensures
        sum_free(merge_pass_spec(s)) == sum_free(s),
    decreases s.len(),
{
    if s.len() <= 1 {
    } else if s[0].end() == s[1].addr {
        lemma_merged_block(s);
        let m = FreeBlock { addr: s[0].addr, size: (s[0].size + HEADER_SIZE + s[1].size) as usize };
        lemma_merge_sum(seq![m] + s.skip(2));
        lemma_sum_free_cons(m, s.skip(2));
        assert(merge_pass_spec(s) == merge_pass_spec(seq![m] + s.skip(2)));
        assert(s.drop_first() =~= s.skip(1));
        assert(s.skip(1)[0] == s[1]);
        assert(s.skip(1).drop_first() =~= s.skip(2));
        assert(sum_free(s) == HEADER_SIZE + s[0].size + sum_free(s.skip(1)));
        assert(sum_free(s.skip(1)) == HEADER_SIZE + s[1].size + sum_free(s.skip(2)));
    } else {
        assert(blocks_fit(s.skip(1))) by {
            assert(forall|i: int| 0 <= i < s.skip(1).len() ==> #[trigger] s.skip(1)[i] == s[i + 1]);
        }
        lemma_merge_sum(s.skip(1));
        lemma_sum_free_cons(s[0], merge_pass_spec(s.skip(1)));
        assert(s.drop_first() =~= s.skip(1));
    }
}

/// Coalescing never claims an address the old list did not claim.
pub proof fn lemma_merge_covers(s: Seq<FreeBlock>)
    requires
        blocks_fit(s),
    ensures
        forall|x: int| #[trigger] covers(merge_pass_spec(s), x) ==> covers(s, x),
    decreases s.len(),
{
    if s.len() <= 1 {
    } else if s[0].end() == s[1].addr {
        lemma_merged_block(s);
        let m = FreeBlock { addr: s[0].addr, size: (s[0].size + HEADER_SIZE + s[1].size) as usize };
        let t = seq![m] + s.skip(2);
        lemma_merge_covers(t);
        assert(merge_pass_spec(s) == merge_pass_spec(t));
        assert forall|x: int| #[trigger] covers(merge_pass_spec(s), x) implies covers(s, x) by {
            assert(covers(merge_pass_spec(t), x));
            assert(covers(t, x));
            let i = choose|i: int| 0 <= i < t.len() && (#[trigger] t[i]).addr <= x < t[i].end();
            if i == 0 {
                if x < s[0].end() {
                    assert(s[0].addr <= x < s[0].end());
                } else {
                    assert(s[1].addr <= x < s[1].end());
                }
            } else {
                assert(t[i] == s[i + 1]);
            }
        }
    } else {
        assert(blocks_fit(s.skip(1))) by {
            assert(forall|i: int| 0 <= i < s.skip(1).len() ==> #[trigger] s.skip(1)[i] == s[i + 1]);
        }
        lemma_merge_covers(s.skip(1));
        assert forall|x: int| #[trigger] covers(merge_pass_spec(s), x) implies covers(s, x) by {
            let t = merge_pass_spec(s);
            let i = choose|i: int| 0 <= i < t.len() && (#[trigger] t[i]).addr <= x < t[i].end();
            if i == 0 {
                assert(s[0].addr <= x < s[0].end());
            } else {
                assert(t[i] == merge_pass_spec(s.skip(1))[i - 1]);
                assert(covers(merge_pass_spec(s.skip(1)), x));
                assert(covers(s.skip(1), x));
                let k = choose|k: int|
                    0 <= k < s.skip(1).len() && (#[trigger] s.skip(1)[k]).addr <= x < s.skip(
                        1,
                    )[k].end();
                assert(s.skip(1)[k] == s[k + 1]);
            }
        }
    }
}

/// Coalescing a pairwise-disjoint list yields a pairwise-disjoint list.
pub proof fn lemma_merge_disjoint(s: Seq<FreeBlock>)
    requires
        blocks_fit(s),
        blocks_disjoint(s),
    ensures
        blocks_disjoint(merge_pass_spec(s)),
    decreases s.len(),
{
    if s.len() <= 1 {
    } else if s[0].end() == s[1].addr {
        lemma_merged_block(s);
        let m = FreeBlock { addr: s[0].addr, size: (s[0].size + HEADER_SIZE + s[1].size) as usize };
        let t = seq![m] + s.skip(2);
        assert(blocks_disjoint(t)) by {
            assert forall|i: int, j: int|
                0 <= i < t.len() && 0 <= j < t.len() && i != j implies disjoint(
                (#[trigger] t[i]).addr as int,
                t[i].end(),
                (#[trigger] t[j]).addr as int,
                t[j].end(),
            ) by {
                if i > 0 && j > 0 {
                    assert(t[i] == s[i + 1] && t[j] == s[j + 1]);
                } else {
                    let k = if i == 0 { j } else { i };
                    assert(t[k] == s[k + 1]);
                    assert(disjoint(s[0].addr as int, s[0].end(), s[k + 1].addr as int, s[k + 1].end()));
                    assert(disjoint(s[1].addr as int, s[1].end(), s[k + 1].addr as int, s[k + 1].end()));
                    assert(m.end() == s[1].end());
                }
            }
        }
        lemma_merge_disjoint(t);
    } else {
        assert(blocks_fit(s.skip(1)) && blocks_disjoint(s.skip(1))) by {
            assert(forall|i: int| 0 <= i < s.skip(1).len() ==> #[trigger] s.skip(1)[i] == s[i + 1]);
        }
        lemma_merge_disjoint(s.skip(1));
        lemma_merge_covers(s.skip(1));
        let t = merge_pass_spec(s);
        let r = merge_pass_spec(s.skip(1));
        assert forall|i: int, j: int|
            0 <= i < t.len() && 0 <= j < t.len() && i != j implies disjoint(
            (#[trigger] t[i]).addr as int,
            t[i].end(),
            (#[trigger] t[j]).addr as int,
            t[j].end(),
        ) by {
            if i > 0 && j > 0 {
                assert(t[i] == r[i - 1] && t[j] == r[j - 1]);
            } else {
                let k = if i == 0 { j } else { i };
                assert(t[0] == s[0] && t[k] == r[k - 1]);
                if !disjoint(s[0].addr as int, s[0].end(), r[k - 1].addr as int, r[k - 1].end()) {
                    let x = if s[0].addr as int >= r[k - 1].addr as int {
                        s[0].addr as int
                    } else {
                        r[k - 1].addr as int
                    };
                    assert(r[k - 1].addr <= x < r[k - 1].end());
                    assert(covers(r, x));
                    assert(covers(s.skip(1), x));
                    let w = choose|w: int|
                        0 <= w < s.skip(1).len() && (#[trigger] s.skip(1)[w]).addr <= x < s.skip(
                            1,
                        )[w].end();
                    assert(s.skip(1)[w] == s[w + 1]);
                    assert(disjoint(s[0].addr as int, s[0].end(), s[w + 1].addr as int, s[w + 1].end()));
                }
            }
        }
    }
}

/// Coalescing keeps the list disjoint from any fixed range it was disjoint
/// from (a live allocation, a pool buffer).
pub proof fn lemma_merge_range_disjoint(s: Seq<FreeBlock>, lo: int, hi: int)
    requires
        blocks_fit(s),
        range_free_disjoint(s, lo, hi),
        lo < hi,
    ensures
        range_free_disjoint(merge_pass_spec(s), lo, hi),
{
    lemma_merge_covers(s);
    let t = merge_pass_spec(s);
    assert forall|i: int| 0 <= i < t.len() implies disjoint(
        (#[trigger] t[i]).addr as int,
        t[i].end(),
        lo,
        hi,
    ) by {
        if !disjoint(t[i].addr as int, t[i].end(), lo, hi) {
            let x = if t[i].addr as int >= lo {
                t[i].addr as int
            } else {
                lo
            };
            assert(t[i].addr <= x < t[i].end());
            assert(lo <= x < hi);
            assert(covers(t, x));
            assert(covers(s, x));
            let w = choose|w: int| 0 <= w < s.len() && (#[trigger] s[w]).addr <= x < s[w].end();
            assert(disjoint(s[w].addr as int, s[w].end(), lo, hi));
            assert(false);
        }
    }
}

/// The head block survives a coalescing pass at the same address, at least
/// as large; if it was address-adjacent to its list successor the two merge
/// into one block spanning both.
pub proof fn lemma_merge_head(s: Seq<FreeBlock>)
    requires
        blocks_fit(s),
        s.len() >= 1,
    ensures
        merge_pass_spec(s).len() >= 1,
        merge_pass_spec(s)[0].addr == s[0].addr,
        merge_pass_spec(s)[0].size >= s[0].size,
        s.len() >= 2 && s[0].end() == s[1].addr ==> merge_pass_spec(s)[0].size >= s[0].size
            + HEADER_SIZE + s[1].size,
    decreases s.len(),
{
    if s.len() <= 1 {
    } else if s[0].end() == s[1].addr {
        lemma_merged_block(s);
        let m = FreeBlock { addr: s[0].addr, size: (s[0].size + HEADER_SIZE + s[1].size) as usize };
        let t = seq![m] + s.skip(2);
        lemma_merge_head(t);
    } else {
        assert(merge_pass_spec(s)[0] == s[0]);
    }
}

/// Whether carving `required` bytes out of block `j` leaves enough room for
/// a new header plus at least one byte, so the block is split rather than
/// consumed whole.
pub open spec fn carve_splits(f: Seq<FreeBlock>, j: int, required: int) -> bool {
    f[j].size - required > HEADER_SIZE
}

/// The free list after carving `required` bytes out of block `j`: on a
/// split the block is replaced in place by the remainder, otherwise it is
/// unlinked whole.
pub open spec fn carve(f: Seq<FreeBlock>, j: int, required: int) -> Seq<FreeBlock> {
    if carve_splits(f, j, required) {
        f.update(
            j,
            FreeBlock {
                addr: (f[j].addr + HEADER_SIZE + required) as usize,
                size: (f[j].size - required - HEADER_SIZE) as usize,
            },
        )
    } else {
        f.remove(j)
    }
}

/// The extent of the region consumed on the allocation's behalf when block
/// `j` serves `required` bytes: header plus `required` on a split, the
/// whole block otherwise.
pub open spec fn carve_owned(f: Seq<FreeBlock>, j: int, required: int) -> int {
    if carve_splits(f, j, required) {
        HEADER_SIZE + required
    } else {
        HEADER_SIZE + f[j].size
    }
}

/// Index of the live allocation that was handed out at `ptr`.
pub open spec fn live_index(l: Seq<LiveAlloc>, ptr: int) -> int {
    choose|i: int| 0 <= i < l.len() && (#[trigger] l[i]).ptr == ptr
}

/// Disjointness makes the live record of a pointer unique, so `live_index`
/// finds exactly the record the caller means.
pub proof fn lemma_live_index_unique(l: Seq<LiveAlloc>, ptr: int)
    requires
        lives_fit(l),
        lives_disjoint(l),
        exists|i: int| 0 <= i < l.len() && (#[trigger] l[i]).ptr == ptr,
    ensures
        0 <= live_index(l, ptr) < l.len(),
        l[live_index(l, ptr)].ptr == ptr,
        forall|j: int|
            0 <= j < l.len() && j != live_index(l, ptr) ==> (#[trigger] l[j]).ptr != ptr,
{
    let li = live_index(l, ptr);
    assert(0 <= li < l.len() && l[li].ptr == ptr);
    assert forall|j: int| 0 <= j < l.len() && j != li implies (#[trigger] l[j]).ptr != ptr by {
        if l[j].ptr == ptr {
            assert(disjoint(l[li].lo(), l[li].hi(), l[j].lo(), l[j].hi()));
            assert(l[li].lo() < l[li].hi() && l[j].lo() < l[j].hi());
        }
    }
}

/// The conservative byte count an allocation request is charged: the larger
/// of the requested size and the requested alignment.
pub open spec fn required_for(size: int, align: int) -> int {
    if size >= align {
        size
    } else {
        align
    }
}

/// Index of the first block that can serve `required` bytes, or -1 when no
/// block is large enough (first fit).
pub open spec fn first_fit(s: Seq<FreeBlock>, required: int) -> int
    decreases s.len(),
{
    if s.len() == 0 {
        -1
    } else if s[0].size >= required {
        0
    } else {
        let r = first_fit(s.drop_first(), required);
        if r == -1 {
            -1
        } else {
            r + 1
        }
    }
}

pub proof fn lemma_first_fit(s: Seq<FreeBlock>, required: int)
    ensures
        first_fit(s, required) == -1 <==> (forall|k: int|
            0 <= k < s.len() ==> (#[trigger] s[k]).size < required),
        first_fit(s, required) != -1 ==> {
            let j = first_fit(s, required);
            &&& 0 <= j < s.len()
            &&& s[j].size >= required
            &&& forall|k: int| 0 <= k < j ==> (#[trigger] s[k]).size < required
        },
    decreases s.len(),
{
    if s.len() == 0 {
    } else if s[0].size >= required {
        assert(first_fit(s, required) == 0);
    } else {
        lemma_first_fit(s.drop_first(), required);
        let t = s.drop_first();
        assert(forall|k: int| 0 <= k < t.len() ==> #[trigger] t[k] == s[k + 1]);
        let rt = first_fit(t, required);
        if rt == -1 {
            assert(first_fit(s, required) == -1);
            assert forall|k: int| 0 <= k < s.len() implies (#[trigger] s[k]).size < required by {
                if k > 0 {
                    assert(t[k - 1].size < required);
                }
            }
        } else {
            assert(first_fit(s, required) == rt + 1);
            assert(s[rt + 1] == t[rt]);
            assert forall|k: int| 0 <= k < rt + 1 implies (#[trigger] s[k]).size < required by {
                if k > 0 {
                    assert(t[k - 1].size < required);
                }
            }
        }
    }
}

/// Split correctness: carving `n` bytes out of a free block of size
/// `m > n + HEADER_SIZE` splits it, leaving a used extent of exactly
/// `HEADER_SIZE + n` bytes (payload `n`) and a new free block of
/// `m - n - HEADER_SIZE` usable bytes directly behind it.
pub proof fn lemma_split_correctness(f: Seq<FreeBlock>, j: int, n: int)
    requires
        blocks_fit(f),
        0 <= j < f.len(),
        0 <= n,
        f[j].size > n + HEADER_SIZE,
    ensures
        carve_splits(f, j, n),
        carve(f, j, n)[j].addr == f[j].addr + HEADER_SIZE + n,
        carve(f, j, n)[j].size == f[j].size - n - HEADER_SIZE,
        carve(f, j, n).len() == f.len(),
        carve_owned(f, j, n) == HEADER_SIZE + n,
{
    assert(f[j].end() <= usize::MAX);
}

/// Merge soundness: when the block at the head of the list ends exactly
/// where its list successor starts, the coalescing pass yields one block
/// spanning both, and a subsequent first-fit request for their combined
/// size is served from it at the head of the list.
pub proof fn lemma_merge_soundness(s: Seq<FreeBlock>)
    requires
        blocks_fit(s),
        s.len() >= 2,
        s[0].end() == s[1].addr,
    ensures
        merge_pass_spec(s).len() >= 1,
        merge_pass_spec(s)[0].addr == s[0].addr,
        merge_pass_spec(s)[0].size >= s[0].size + HEADER_SIZE + s[1].size,
        first_fit(merge_pass_spec(s), s[0].size + HEADER_SIZE + s[1].size) == 0,
{
    lemma_merge_head(s);
}

/// Find the first block that can serve `required` bytes.
pub(crate) fn find_fit(list: &Vec<FreeBlock>, required: usize) -> (r: Option<usize>)
    ensures
        first_fit(list@, required as int) == -1 ==> r == None::<usize>,
        first_fit(list@, required as int) != -1 ==> r == Some(
            first_fit(list@, required as int) as usize,
        ),
{
    proof {
        lemma_first_fit(list@, required as int);
    }
    let mut j: usize = 0;
    while j < list.len()
        invariant
            j <= list@.len(),
            forall|k: int| 0 <= k < j ==> (#[trigger] list@[k]).size < required,
            first_fit(list@, required as int) == -1 <==> (forall|k: int|
                0 <= k < list@.len() ==> (#[trigger] list@[k]).size < required),
            first_fit(list@, required as int) != -1 ==> {
                let f = first_fit(list@, required as int);
                &&& 0 <= f < list@.len()
                &&& list@[f].size >= required
                &&& forall|k: int| 0 <= k < f ==> (#[trigger] list@[k]).size < required
            },
        decreases list@.len() - j,
    {
        if list[j].size >= required {
            proof {
                let f = first_fit(list@, required as int);
                assert(f != -1);
                if f < j {
                    assert(list@[f].size >= required);
                    assert(list@[f].size < required);
                }
                if f > j {
                    assert(list@[j as int].size >= required);
                    assert(list@[j as int].size < required);
                }
                assert(f == j);
            }
            return Some(j);
        }
        j = j + 1;
    }
    None
}

/// Run one forward coalescing pass over the free list.
pub(crate) fn merge_pass(list: &mut Vec<FreeBlock>)
    requires
        blocks_fit(old(list)@),
    ensures
        final(list)@ == merge_pass_spec(old(list)@),
{
    let ghost orig = list@;
    let n0 = list.len();
    proof {
        assert(list@.len() == n0);
        assert(orig.skip(0) =~= orig);
        assert(orig.take(0) + merge_pass_spec(orig.skip(0)) =~= merge_pass_spec(orig));
    }
    let mut i: usize = 0;
    while list.len() >= 2 && i < list.len() - 1
        invariant
            i <= list@.len(),
            list@.len() <= n0,
            blocks_fit(list@),
            merge_pass_spec(orig) == list@.take(i as int) + merge_pass_spec(list@.skip(i as int)),
        decreases list@.len() - i,
    {
        let ghost pre = list@;
        let cur = list[i];
        let nxt = list[i + 1];
        proof {
            assert(pre[i as int].end() <= usize::MAX);
            assert(pre[i as int + 1].end() <= usize::MAX);
        }
        if cur.addr + HEADER_SIZE + cur.size == nxt.addr {
            proof {
                assert(cur.size + HEADER_SIZE + nxt.size <= usize::MAX) by {
                    assert(nxt.end() <= usize::MAX);
                }
            }
            let merged = FreeBlock { addr: cur.addr, size: cur.size + HEADER_SIZE + nxt.size };
            list.set(i, merged);
            list.remove(i + 1);
            proof {
                let sk = pre.skip(i as int);
                assert(sk[0] == cur && sk[1] == nxt);
                assert(blocks_fit(sk)) by {
                    assert(forall|k: int| 0 <= k < sk.len() ==> #[trigger] sk[k] == pre[k + i]);
                }
                lemma_merged_block(sk);
                let m = FreeBlock {
                    addr: sk[0].addr,
                    size: (sk[0].size + HEADER_SIZE + sk[1].size) as usize,
                };
                assert(m == merged);
                assert(merge_pass_spec(sk) == merge_pass_spec(seq![m] + sk.skip(2)));
                assert(seq![m] + sk.skip(2) =~= list@.skip(i as int));
                assert(list@.take(i as int) =~= pre.take(i as int));
                assert(blocks_fit(list@)) by {
                    assert(forall|k: int|
                        0 <= k < list@.len() ==> #[trigger] list@[k] == (if k == i {
                            merged
                        } else if k < i {
                            pre[k]
                        } else {
                            pre[k + 1]
                        }));
                    assert(merged.end() == nxt.end());
                }
            }
        } else {
            i = i + 1;
            proof {
                let sk = pre.skip(i as int - 1);
                assert(sk[0] == cur && sk[1] == nxt);
                assert(sk[0].end() != sk[1].addr);
                assert(merge_pass_spec(sk) == seq![sk[0]] + merge_pass_spec(sk.skip(1)));
                assert(sk.skip(1) =~= pre.skip(i as int));
                assert(pre.take(i as int - 1) + (seq![cur] + merge_pass_spec(pre.skip(i as int)))
                    =~= pre.take(i as int) + merge_pass_spec(pre.skip(i as int)));
            }
        }
    }
    proof {
        assert(list@.skip(i as int).len() <= 1);
        assert(merge_pass_spec(list@.skip(i as int)) == list@.skip(i as int));
        assert(list@.take(i as int) + list@.skip(i as int) =~= list@);
    }
}

} // verus!
