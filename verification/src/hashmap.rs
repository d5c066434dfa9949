//! A small open-addressing hash map with linear probing over power-of-two
//! bucket counts, used by the kernel's library layer.  Keys are machine
//! integers; values are any type.  Each map hashes with a fixed per-map
//! seed, so lookups and insertions probe the same path.

use vstd::arithmetic::div_mod::lemma_fundamental_div_mod;
use vstd::arithmetic::div_mod::lemma_fundamental_div_mod_converse;
use vstd::arithmetic::div_mod::lemma_mod_bound;
use vstd::pervasive::arbitrary;
use vstd::prelude::*;

verus! {

/// One multiply-and-add hashing step folding `b` into the running state
/// `h`, with 64-bit wrap-around.
pub open spec fn hash_step(h: u64, b: u64) -> u64 {
    ((h * 0x0100_0193 + b) % 0x1_0000_0000_0000_0000) as u64
}

/// A byte string folded into the running state, first byte first.
pub open spec fn hash_bytes(h: u64, s: Seq<u8>) -> u64
    decreases s.len(),
{
    if s.len() == 0 {
        h
    } else {
        hash_bytes(hash_step(h, s[0] as u64), s.drop_first())
    }
}

/// The hash a map with seed `seed` gives to the key `k`.
pub open spec fn spec_hash(seed: u64, k: u64) -> u64 {
    hash_step(seed, k)
}

/// A simple multiply-and-add hasher over byte strings.
pub struct DefaultHasher(pub u64);

impl DefaultHasher {
    /// A hasher starting from state zero.  (The kernel seeds its hashers
    /// from boot-time entropy; a caller holding entropy can start from it
    /// with a struct literal instead.)
    pub fn new() -> (r: Self)
        ensures
            r.0 == 0,
    {
        DefaultHasher(0)
    }

    /// Fold a byte string into the state.
    pub fn write(&mut self, bytes: &[u8])
        ensures
            final(self).0 == hash_bytes(old(self).0, bytes@),
    {
        let n = bytes.len();
        let mut i: usize = 0;
        while i < n
            invariant
                i <= n,
                n == bytes@.len(),
                self.0 == hash_bytes(old(self).0, bytes@.take(i as int)),
            decreases n - i,
        {
            let b = bytes[i];
            let wide: u128 = (self.0 as u128) * 0x0100_0193u128 + (b as u128);
            let folded = (wide % 0x1_0000_0000_0000_0000u128) as u64;
            proof {
                assert(folded == hash_step(self.0, b as u64));
                assert(bytes@.take(i as int + 1) =~= bytes@.take(i as int).push(bytes@[i as int]));
                lemma_hash_bytes_snoc(old(self).0, bytes@.take(i as int), bytes@[i as int]);
            }
            self.0 = folded;
            i = i + 1;
        }
        proof {
            assert(bytes@.take(n as int) =~= bytes@);
        }
    }

    /// The current state as the hash value.
    pub fn finish(&self) -> (r: u64)
        ensures
            r == self.0,
    {
        self.0
    }
}

/// Folding one more byte hashes the extended string.
proof fn lemma_hash_bytes_snoc(h: u64, s: Seq<u8>, b: u8)
    ensures
        hash_bytes(h, s.push(b)) == hash_step(hash_bytes(h, s), b as u64),
    decreases s.len(),
{
    if s.len() == 0 {
        assert(s.push(b)[0] == b);
        assert(s.push(b).drop_first() =~= Seq::<u8>::empty());
        assert(hash_bytes(h, s.push(b)) == hash_bytes(
            hash_step(h, b as u64),
            s.push(b).drop_first(),
        ));
    } else {
        assert(s.push(b)[0] == s[0]);
        assert(s.push(b).drop_first() =~= s.drop_first().push(b));
        lemma_hash_bytes_snoc(hash_step(h, s[0] as u64), s.drop_first(), b);
        assert(hash_bytes(h, s.push(b)) == hash_bytes(
            hash_step(h, s[0] as u64),
            s.drop_first().push(b),
        ));
        assert(hash_bytes(h, s) == hash_bytes(hash_step(h, s[0] as u64), s.drop_first()));
    }
}

/// The slot holds the key `k`.
pub open spec fn slot_has<V>(s: Option<(u64, V)>, k: u64) -> bool {
    match s {
        Some(p) => p.0 == k,
        None => false,
    }
}

/// The slot is occupied.
pub open spec fn occupied<V>(s: Option<(u64, V)>) -> bool {
    s is Some
}

/// The key in an occupied slot.
pub open spec fn slot_key<V>(s: Option<(u64, V)>) -> u64 {
    match s {
        Some(p) => p.0,
        None => 0,
    }
}

/// The value in an occupied slot.
pub open spec fn slot_val<V>(s: Option<(u64, V)>) -> V {
    match s {
        Some(p) => p.1,
        None => arbitrary(),
    }
}

/// Some slot with index below `n` holds `k`.
pub open spec fn has_key_upto<V>(b: Seq<Option<(u64, V)>>, n: int, k: u64) -> bool {
    exists|i: int| 0 <= i < n && #[trigger] slot_has(b[i], k)
}

/// Some slot holds `k`.
pub open spec fn has_key<V>(b: Seq<Option<(u64, V)>>, k: u64) -> bool {
    has_key_upto(b, b.len() as int, k)
}

/// The index of the slot holding `k`.
pub open spec fn key_index<V>(b: Seq<Option<(u64, V)>>, k: u64) -> int {
    choose|i: int| 0 <= i < b.len() && #[trigger] slot_has(b[i], k)
}

/// The mathematical map stored in the slots with index below `n`.
pub open spec fn map_view_upto<V>(b: Seq<Option<(u64, V)>>, n: int) -> Map<u64, V> {
    Map::new(|k: u64| has_key_upto(b, n, k), |k: u64| slot_val(b[key_index(b, k)]))
}

/// The mathematical map stored in the buckets.
pub open spec fn map_view<V>(b: Seq<Option<(u64, V)>>) -> Map<u64, V> {
    map_view_upto(b, b.len() as int)
}

/// No two occupied slots hold the same key.
pub open spec fn keys_unique<V>(b: Seq<Option<(u64, V)>>) -> bool {
    forall|i: int, j: int|
        0 <= i < b.len() && 0 <= j < b.len() && i != j && occupied(#[trigger] b[i]) && occupied(
            #[trigger] b[j],
        ) ==> slot_key(b[i]) != slot_key(b[j])
}

/// The number of occupied slots.
pub open spec fn count_some<V>(b: Seq<Option<(u64, V)>>) -> int
    decreases b.len(),
{
    if b.len() == 0 {
        0
    } else {
        (if occupied(b.last()) {
            1int
        } else {
            0int
        }) + count_some(b.drop_last())
    }
}

proof fn lemma_count_bounds<V>(b: Seq<Option<(u64, V)>>)
    ensures
        0 <= count_some(b) <= b.len(),
        (forall|p: int| 0 <= p < b.len() ==> occupied(#[trigger] b[p])) ==> count_some(b)
            == b.len(),
        (forall|p: int| 0 <= p < b.len() ==> !occupied(#[trigger] b[p])) ==> count_some(b) == 0,
    decreases b.len(),
{
    if b.len() > 0 {
        assert(forall|p: int| 0 <= p < b.drop_last().len() ==> b.drop_last()[p] == b[p]);
        lemma_count_bounds(b.drop_last());
    }
}

proof fn lemma_count_update<V>(b: Seq<Option<(u64, V)>>, i: int, s: Option<(u64, V)>)
    requires
        0 <= i < b.len(),
    ensures
        count_some(b.update(i, s)) == count_some(b) - (if occupied(b[i]) {
            1int
        } else {
            0int
        }) + (if occupied(s) {
            1int
        } else {
            0int
        }),
    decreases b.len(),
{
    let u = b.update(i, s);
    if i == b.len() - 1 {
        assert(u.last() == s);
        assert(u.drop_last() =~= b.drop_last());
    } else {
        assert(u.last() == b.last());
        assert(u.drop_last() =~= b.drop_last().update(i, s));
        lemma_count_update(b.drop_last(), i, s);
    }
}

/// The starting probe position of key `k` in a table of `cap` buckets.
pub open spec fn hpos(seed: u64, k: u64, cap: int) -> int {
    spec_hash(seed, k) as int % cap
}

/// The circular distance from probe start `s` to position `i`.
pub open spec fn dist(i: int, s: int, cap: int) -> int {
    if i >= s {
        i - s
    } else {
        i + cap - s
    }
}

/// The position probed at step `t` from start `s`.
pub open spec fn probe_at(s: int, t: int, cap: int) -> int {
    (s + t) % cap
}

/// Probing `t` steps from `s` lands at circular distance `t`.
proof fn lemma_probe_dist(s: int, t: int, cap: int)
    requires
        0 <= s < cap,
        0 <= t < cap,
    ensures
        0 <= probe_at(s, t, cap) < cap,
        dist(probe_at(s, t, cap), s, cap) == t,
{
    if s + t < cap {
        lemma_fundamental_div_mod_converse(s + t, cap, 0, s + t);
    } else {
        lemma_fundamental_div_mod_converse(s + t, cap, 1, s + t - cap);
    }
}

/// Every position is probed: at step `dist(p, s, cap)` the probe lands on
/// `p`.
proof fn lemma_dist_probe(s: int, p: int, cap: int)
    requires
        0 <= s < cap,
        0 <= p < cap,
    ensures
        0 <= dist(p, s, cap) < cap,
        probe_at(s, dist(p, s, cap), cap) == p,
{
    if p >= s {
        lemma_fundamental_div_mod_converse(s + (p - s), cap, 0, p);
    } else {
        lemma_fundamental_div_mod_converse(s + (p + cap - s), cap, 1, p);
    }
}

/// Linear probing's path invariant: every position strictly closer to an
/// occupied slot's probe start than the slot itself is also occupied, so a
/// probe for that slot's key never stops early at an empty slot.
pub open spec fn probe_ok<V>(b: Seq<Option<(u64, V)>>, seed: u64) -> bool {
    forall|i: int, p: int|
        0 <= i < b.len() && 0 <= p < b.len() && occupied(#[trigger] b[i]) && dist(
            p,
            hpos(seed, slot_key(b[i]), b.len() as int),
            b.len() as int,
        ) < dist(i, hpos(seed, slot_key(b[i]), b.len() as int), b.len() as int) ==> occupied(
            #[trigger] b[p],
        )
}

/// If a probe for `k` has seen `t` occupied slots holding other keys and
/// then an empty slot, no slot holds `k` at all.
proof fn lemma_absent_key<V>(b: Seq<Option<(u64, V)>>, seed: u64, k: u64, t: int)
    requires
        b.len() >= 1,
        probe_ok(b, seed),
        0 <= t < b.len(),
        0 <= hpos(seed, k, b.len() as int) < b.len(),
        forall|t2: int|
            0 <= t2 < t ==> occupied(
                #[trigger] b[probe_at(hpos(seed, k, b.len() as int), t2, b.len() as int)],
            ) && slot_key(b[probe_at(hpos(seed, k, b.len() as int), t2, b.len() as int)]) != k,
        !occupied(b[probe_at(hpos(seed, k, b.len() as int), t, b.len() as int)]),
    ensures
        !has_key(b, k),
{
    let cap = b.len() as int;
    let s = hpos(seed, k, cap);
    if has_key(b, k) {
        let i = choose|i: int| 0 <= i < cap && #[trigger] slot_has(b[i], k);
        lemma_dist_probe(s, i, cap);
        let d = dist(i, s, cap);
        assert(occupied(b[i]) && slot_key(b[i]) == k);
        if d < t {
            assert(probe_at(s, d, cap) == i);
            assert(slot_key(b[probe_at(s, d, cap)]) != k);
        } else if d == t {
            assert(probe_at(s, t, cap) == i);
        } else {
            lemma_probe_dist(s, t, cap);
            let p = probe_at(s, t, cap);
            assert(dist(p, s, cap) == t < d);
            assert(occupied(b[p]));
        }
        assert(false);
    }
}

/// A probe that has seen every bucket occupied has seen the whole table:
/// the occupied count is the bucket count (which contradicts the
/// invariant that at least one bucket is empty).
proof fn lemma_full_scan<V>(b: Seq<Option<(u64, V)>>, seed: u64, k: u64)
    requires
        b.len() >= 1,
        0 <= hpos(seed, k, b.len() as int) < b.len(),
        forall|t2: int|
            0 <= t2 < b.len() ==> occupied(
                #[trigger] b[probe_at(hpos(seed, k, b.len() as int), t2, b.len() as int)],
            ),
    ensures
        count_some(b) == b.len(),
{
    let cap = b.len() as int;
    let s = hpos(seed, k, cap);
    assert forall|p: int| 0 <= p < cap implies occupied(#[trigger] b[p]) by {
        lemma_dist_probe(s, p, cap);
        assert(occupied(b[probe_at(s, dist(p, s, cap), cap)]));
    }
    lemma_count_bounds(b);
}

/// The slot holding `k` is unique in a table with unique keys.
proof fn lemma_key_index_unique<V>(b: Seq<Option<(u64, V)>>, k: u64)
    requires
        keys_unique(b),
        has_key(b, k),
    ensures
        0 <= key_index(b, k) < b.len(),
        slot_has(b[key_index(b, k)], k),
        forall|j: int|
            0 <= j < b.len() && j != key_index(b, k) ==> !#[trigger] slot_has(b[j], k),
{
    let i = key_index(b, k);
    assert(0 <= i < b.len() && slot_has(b[i], k));
    assert forall|j: int|
        0 <= j < b.len() && j != i implies !#[trigger] slot_has(b[j], k) by {
        if slot_has(b[j], k) {
            assert(occupied(b[i]) && occupied(b[j]));
            assert(slot_key(b[i]) == k && slot_key(b[j]) == k);
        }
    }
}

/// Writing `(key, value)` into a slot that either already holds `key` or
/// is empty (while no slot holds `key`) stores exactly the updated map.
proof fn lemma_map_update<V>(b: Seq<Option<(u64, V)>>, idx: int, key: u64, value: V)
    requires
        0 <= idx < b.len(),
        keys_unique(b),
        slot_has(b[idx], key) || (!has_key(b, key) && !occupied(b[idx])),
    ensures
        keys_unique(b.update(idx, Some((key, value)))),
        map_view(b.update(idx, Some((key, value)))) == map_view(b).insert(key, value),
{
    let b2 = b.update(idx, Some((key, value)));
    assert(forall|i: int| 0 <= i < b.len() && i != idx ==> b2[i] == b[i]);
    assert(keys_unique(b2)) by {
        assert forall|i: int, j: int|
            0 <= i < b2.len() && 0 <= j < b2.len() && i != j && occupied(#[trigger] b2[i])
                && occupied(#[trigger] b2[j]) implies slot_key(b2[i]) != slot_key(b2[j]) by {
            if i != idx && j != idx {
            } else {
                let o = if i == idx {
                    j
                } else {
                    i
                };
                if slot_key(b2[o]) == key {
                    assert(slot_has(b[o], key));
                    if slot_has(b[idx], key) {
                        assert(occupied(b[o]) && occupied(b[idx]));
                        assert(slot_key(b[o]) == slot_key(b[idx]));
                    } else {
                        assert(has_key(b, key));
                    }
                }
            }
        }
    }
    assert(slot_has(b2[idx], key));
    assert(has_key(b2, key));
    lemma_key_index_unique(b2, key);
    assert(map_view(b2) =~= map_view(b).insert(key, value)) by {
        assert forall|k2: u64| #[trigger] has_key(b2, k2) && k2 != key implies has_key(b, k2)
            && slot_val(b2[key_index(b2, k2)]) == slot_val(b[key_index(b, k2)]) by {
            let i = choose|i: int| 0 <= i < b2.len() && #[trigger] slot_has(b2[i], k2);
            assert(i != idx);
            assert(slot_has(b[i], k2));
            assert(has_key(b, k2));
            lemma_key_index_unique(b2, k2);
            lemma_key_index_unique(b, k2);
            assert(key_index(b2, k2) == i);
            assert(key_index(b, k2) == i);
        }
        assert forall|k2: u64| #[trigger] has_key(b, k2) && k2 != key implies has_key(b2, k2) by {
            let i = choose|i: int| 0 <= i < b.len() && #[trigger] slot_has(b[i], k2);
            assert(i != idx) by {
                if i == idx {
                    if slot_has(b[idx], key) {
                        assert(slot_key(b[idx]) == key && slot_key(b[idx]) == k2);
                    } else {
                        assert(occupied(b[i]));
                    }
                }
            }
            assert(slot_has(b2[i], k2));
        }
        assert(key_index(b2, key) == idx);
        assert(slot_val(b2[idx]) == value);
    }
}

/// The map stored in the first `i + 1` slots extends the map stored in the
/// first `i` slots by slot `i`'s entry, if any; and with unique keys that
/// entry's key is new.
proof fn lemma_prefix_view_step<V>(b: Seq<Option<(u64, V)>>, i: int)
    requires
        keys_unique(b),
        0 <= i < b.len(),
    ensures
        occupied(b[i]) ==> map_view_upto(b, i + 1) == map_view_upto(b, i).insert(
            slot_key(b[i]),
            slot_val(b[i]),
        ),
        occupied(b[i]) ==> !map_view_upto(b, i).dom().contains(slot_key(b[i])),
        !occupied(b[i]) ==> map_view_upto(b, i + 1) == map_view_upto(b, i),
{
    if occupied(b[i]) {
        let k = slot_key(b[i]);
        assert(slot_has(b[i], k));
        assert(!has_key_upto(b, i, k)) by {
            if has_key_upto(b, i, k) {
                let j = choose|j: int| 0 <= j < i && #[trigger] slot_has(b[j], k);
                assert(occupied(b[j]) && slot_key(b[j]) == k);
            }
        }
        lemma_key_index_unique(b, k);
        assert(key_index(b, k) == i);
        assert(map_view_upto(b, i + 1) =~= map_view_upto(b, i).insert(k, slot_val(b[i]))) by {
            assert(has_key_upto(b, i + 1, k));
            assert forall|k2: u64| #[trigger] has_key_upto(b, i + 1, k2) && k2 != k implies
                has_key_upto(b, i, k2) by {
                let j = choose|j: int| 0 <= j < i + 1 && #[trigger] slot_has(b[j], k2);
                assert(j != i);
            }
            assert(forall|k2: u64| #[trigger] has_key_upto(b, i, k2) ==> has_key_upto(b, i + 1, k2));
        }
    } else {
        assert(map_view_upto(b, i + 1) =~= map_view_upto(b, i)) by {
            assert forall|k2: u64| #[trigger] has_key_upto(b, i + 1, k2) implies has_key_upto(
                b,
                i,
                k2,
            ) by {
                let j = choose|j: int| 0 <= j < i + 1 && #[trigger] slot_has(b[j], k2);
                assert(j != i);
            }
            assert(forall|k2: u64| #[trigger] has_key_upto(b, i, k2) ==> has_key_upto(b, i + 1, k2));
        }
    }
}

/// A prefix holds no more entries than the whole table.
proof fn lemma_count_take<V>(b: Seq<Option<(u64, V)>>, n: int)
    requires
        0 <= n <= b.len(),
    ensures
        0 <= count_some(b.take(n)) <= count_some(b),
    decreases b.len(),
{
    lemma_count_bounds(b.take(n));
    lemma_count_bounds(b);
    if n == b.len() {
        assert(b.take(n) =~= b);
    } else {
        assert(b.take(n) =~= b.drop_last().take(n));
        lemma_count_take(b.drop_last(), n);
    }
}

/// Writing a fresh entry into the empty slot reached at probe step `t`
/// keeps the probing path invariant: the new entry's own path was seen
/// occupied, and occupancy only grows.
proof fn lemma_probe_ok_new_entry<V>(
    b: Seq<Option<(u64, V)>>,
    seed: u64,
    key: u64,
    value: V,
    t: int,
)
    requires
        b.len() >= 1,
        probe_ok(b, seed),
        0 <= t < b.len(),
        0 <= hpos(seed, key, b.len() as int) < b.len(),
        forall|t2: int|
            0 <= t2 < t ==> occupied(
                #[trigger] b[probe_at(hpos(seed, key, b.len() as int), t2, b.len() as int)],
            ),
        !occupied(b[probe_at(hpos(seed, key, b.len() as int), t, b.len() as int)]),
    ensures
        probe_ok(
            b.update(probe_at(hpos(seed, key, b.len() as int), t, b.len() as int), Some((key, value))),
            seed,
        ),
{
    let cap = b.len() as int;
    let s = hpos(seed, key, cap);
    lemma_probe_dist(s, t, cap);
    let idx = probe_at(s, t, cap);
    let b2 = b.update(idx, Some((key, value)));
    assert(dist(idx, s, cap) == t);
    assert(slot_key(b2[idx]) == key);
    assert forall|i: int, p: int|
        0 <= i < b2.len() && 0 <= p < b2.len() && occupied(#[trigger] b2[i]) && dist(
            p,
            hpos(seed, slot_key(b2[i]), cap),
            cap,
        ) < dist(i, hpos(seed, slot_key(b2[i]), cap), cap) implies occupied(#[trigger] b2[p]) by {
        if p != idx {
            if i == idx {
                let d = dist(p, s, cap);
                assert(d < t);
                lemma_dist_probe(s, p, cap);
                assert(probe_at(s, d, cap) == p);
                assert(occupied(b[p]));
            } else {
                assert(occupied(b[i]));
                assert(slot_key(b[i]) == slot_key(b2[i]));
                assert(occupied(b[p]));
            }
        }
    }
}

/// Replacing the value in the slot that already holds `key` leaves the
/// occupancy pattern and every slot key unchanged, so the probing path
/// invariant carries over.
proof fn lemma_probe_ok_replace<V>(b: Seq<Option<(u64, V)>>, seed: u64, idx: int, key: u64, value: V)
    requires
        probe_ok(b, seed),
        0 <= idx < b.len(),
        slot_has(b[idx], key),
    ensures
        probe_ok(b.update(idx, Some((key, value))), seed),
{
    let b2 = b.update(idx, Some((key, value)));
    assert(forall|i: int|
        0 <= i < b.len() ==> occupied(#[trigger] b2[i]) == occupied(b[i]) && slot_key(b2[i])
            == slot_key(b[i]));
}

/// The bucket index probed at step `t`, computed without overflow.
fn probe_index(start: usize, t: usize, capacity: usize) -> (idx: usize)
    requires
        start < capacity,
        t < capacity,
    ensures
        idx < capacity,
        idx as int == probe_at(start as int, t as int, capacity as int),
{
    let idx = if start >= capacity - t {
        start - (capacity - t)
    } else {
        start + t
    };
    proof {
        if start + t < capacity {
            lemma_fundamental_div_mod_converse(
                start as int + t as int,
                capacity as int,
                0,
                start as int + t as int,
            );
        } else {
            lemma_fundamental_div_mod_converse(
                start as int + t as int,
                capacity as int,
                1,
                start as int + t as int - capacity as int,
            );
        }
    }
    idx
}

/// The open-addressing hash map: `capacity` buckets probed linearly,
/// `len` occupied slots, and the per-map hash seed.
pub struct HashMap<V> {
    /// The bucket array; `None` is an empty slot.
    pub buckets: Vec<Option<(u64, V)>>,
    /// The number of occupied slots.
    pub len: usize,
    /// The number of buckets.
    pub capacity: usize,
    /// The per-map hash seed.
    pub seed: u64,
}

impl<V> HashMap<V> {
    /// The mathematical map stored.
    pub open spec fn as_map(&self) -> Map<u64, V> {
        map_view(self.buckets@)
    }

    /// The map's invariant: the bucket count is the capacity, `len` counts
    /// the occupied slots and leaves at least one empty, keys are unique,
    /// and the linear-probing path invariant holds.
    pub open spec fn wf(&self) -> bool {
        &&& self.capacity == self.buckets@.len()
        &&& self.capacity >= 16
        &&& self.len == count_some(self.buckets@)
        &&& self.len < self.capacity
        &&& keys_unique(self.buckets@)
        &&& probe_ok(self.buckets@, self.seed)
    }

    fn allocate_buckets(capacity: usize) -> (r: Vec<Option<(u64, V)>>)
        ensures
            r@.len() == capacity,
            forall|i: int| 0 <= i < capacity ==> !occupied(#[trigger] r@[i]),
    {
        let mut r: Vec<Option<(u64, V)>> = Vec::new();
        let mut i: usize = 0;
        while i < capacity
            invariant
                i <= capacity,
                r@.len() == i,
                forall|k: int| 0 <= k < i ==> !occupied(#[trigger] r@[k]),
            decreases capacity - i,
        {
            r.push(None);
            i = i + 1;
        }
        r
    }

    /// An empty map with the given hash seed (boot-time entropy, where the
    /// caller has it).
    pub fn with_seed(seed: u64) -> (r: Self)
        ensures
            r.wf(),
            r.as_map() == Map::<u64, V>::empty(),
            r.capacity == 16,
            r.seed == seed,
            r.len == 0,
    {
        let r = Self { buckets: Self::allocate_buckets(16), len: 0, capacity: 16, seed };
        proof {
            lemma_count_bounds(r.buckets@);
            assert(r.as_map() =~= Map::<u64, V>::empty());
        }
        r
    }

    /// An empty map with seed zero.
    pub fn new() -> (r: Self)
        ensures
            r.wf(),
            r.as_map() == Map::<u64, V>::empty(),
            r.capacity == 16,
            r.seed == 0,
            r.len == 0,
    {
        Self::with_seed(0)
    }

    /// The hash of `key` under this map's seed.
    fn hash(&self, key: u64) -> (r: u64)
        ensures
            r == spec_hash(self.seed, key),
    {
        let wide: u128 = (self.seed as u128) * 0x0100_0193u128 + (key as u128);
        let r = (wide % 0x1_0000_0000_0000_0000u128) as u64;
        proof {
            assert(r == hash_step(self.seed, key));
        }
        r
    }

    /// Look up `key`: returns a reference to its value exactly when the
    /// stored map contains it.
    #[verifier::loop_isolation(false)]
    pub fn get(&self, key: u64) -> (r: Option<&V>)
        requires
            self.wf(),
        ensures
            self.as_map().contains_key(key) ==> (r matches Some(v) && *v == self.as_map()[key]),
            !self.as_map().contains_key(key) ==> r is None,
    {
        let ghost b = self.buckets@;
        let ghost cap = self.capacity as int;
        let ghost s = hpos(self.seed, key, cap);
        let h = self.hash(key);
        proof {
            lemma_mod_bound(h as int, cap);
        }
        let start = (h % (self.capacity as u64)) as usize;
        let mut t: usize = 0;
        while t < self.capacity
            invariant
                t <= cap,
                start as int == s,
                forall|t2: int|
                    0 <= t2 < t ==> occupied(#[trigger] b[probe_at(s, t2, cap)]) && slot_key(
                        b[probe_at(s, t2, cap)],
                    ) != key,
            decreases cap - t,
        {
            let idx = probe_index(start, t, self.capacity);
            match &self.buckets[idx] {
                Some(p) => {
                    if p.0 == key {
                        proof {
                            assert(slot_has(b[idx as int], key));
                            assert(has_key(b, key));
                            lemma_key_index_unique(b, key);
                            assert(key_index(b, key) == idx as int);
                        }
                        return Some(&p.1);
                    }
                    proof {
                        assert(occupied(b[idx as int]) && slot_key(b[idx as int]) != key);
                    }
                },
                None => {
                    proof {
                        lemma_absent_key(b, self.seed, key, t as int);
                    }
                    return None;
                },
            }
            t = t + 1;
        }
        proof {
            lemma_full_scan(b, self.seed, key);
        }
        None
    }

    /// Find the slot where `key` lives or would be inserted: the probe
    /// path's first slot holding `key` (second component true), or its
    /// first empty slot when no slot holds `key` (second component
    /// false).
    #[verifier::loop_isolation(false)]
    fn probe_slot(&self, key: u64) -> (r: (usize, bool))
        requires
            self.wf(),
        ensures
            r.0 < self.capacity,
            r.1 ==> slot_has(self.buckets@[r.0 as int], key) && has_key(self.buckets@, key)
                && key_index(self.buckets@, key) == r.0 as int,
            !r.1 ==> !occupied(self.buckets@[r.0 as int]) && !has_key(self.buckets@, key) && (
            forall|v: V|
                probe_ok(
                    #[trigger] self.buckets@.update(r.0 as int, Some((key, v))),
                    self.seed,
                )),
    {
        let ghost b = self.buckets@;
        let ghost cap = self.capacity as int;
        let ghost s = hpos(self.seed, key, cap);
        let h = self.hash(key);
        proof {
            lemma_mod_bound(h as int, cap);
        }
        let start = (h % (self.capacity as u64)) as usize;
        let mut t: usize = 0;
        while t < self.capacity
            invariant
                t <= cap,
                start as int == s,
                forall|t2: int|
                    0 <= t2 < t ==> occupied(#[trigger] b[probe_at(s, t2, cap)]) && slot_key(
                        b[probe_at(s, t2, cap)],
                    ) != key,
            decreases cap - t,
        {
            let idx = probe_index(start, t, self.capacity);
            match &self.buckets[idx] {
                Some(p) => {
                    if p.0 == key {
                        proof {
                            assert(slot_has(b[idx as int], key));
                            assert(has_key(b, key));
                            lemma_key_index_unique(b, key);
                            assert(key_index(b, key) == idx as int);
                        }
                        return (idx, true);
                    }
                    proof {
                        assert(occupied(b[idx as int]) && slot_key(b[idx as int]) != key);
                    }
                },
                None => {
                    proof {
                        lemma_absent_key(b, self.seed, key, t as int);
                        assert forall|v: V|
                            probe_ok(
                                #[trigger] b.update(idx as int, Some((key, v))),
                                self.seed,
                            ) by {
                            lemma_probe_ok_new_entry(b, self.seed, key, v, t as int);
                        }
                    }
                    return (idx, false);
                },
            }
            t = t + 1;
        }
        proof {
            lemma_full_scan(b, self.seed, key);
        }
        (0, false)
    }

    /// Insert `(key, value)` along the probe path, replacing the value if
    /// the key is present.  The caller leaves room: at least two empty
    /// slots before the call.
    fn probe_insert(&mut self, key: u64, value: V) -> (r: Option<V>)
        requires
            old(self).wf(),
            old(self).len + 1 < old(self).capacity,
        ensures
            final(self).wf(),
            final(self).as_map() == old(self).as_map().insert(key, value),
            final(self).capacity == old(self).capacity,
            final(self).seed == old(self).seed,
            old(self).as_map().contains_key(key) ==> (r matches Some(v) && v == old(
                self,
            ).as_map()[key] && final(self).len == old(self).len),
            !old(self).as_map().contains_key(key) ==> r is None && final(self).len == old(self).len
                + 1,
    {
        let ghost b = self.buckets@;
        let (idx, found) = self.probe_slot(key);
        if found {
            let prev = self.buckets.remove(idx);
            self.buckets.insert(idx, Some((key, value)));
            proof {
                assert(self.buckets@ =~= b.update(idx as int, Some((key, value))));
                lemma_map_update(b, idx as int, key, value);
                lemma_count_update(b, idx as int, Some((key, value)));
                lemma_probe_ok_replace(b, self.seed, idx as int, key, value);
            }
            match prev {
                Some(p) => Some(p.1),
                None => {
                    proof {
                        assert(occupied(b[idx as int]));
                        assert(false);
                    }
                    None
                },
            }
        } else {
            self.buckets.set(idx, Some((key, value)));
            self.len = self.len + 1;
            proof {
                assert(self.buckets@ == b.update(idx as int, Some((key, value))));
                lemma_map_update(b, idx as int, key, value);
                lemma_count_update(b, idx as int, Some((key, value)));
            }
            None
        }
    }

    /// Rebuild the table with twice the buckets, reinserting every entry.
    #[verifier::loop_isolation(false)]
    fn resize(&mut self)
        requires
            old(self).wf(),
            old(self).capacity <= usize::MAX / 2,
        ensures
            final(self).wf(),
            final(self).as_map() == old(self).as_map(),
            final(self).len == old(self).len,
            final(self).seed == old(self).seed,
            final(self).capacity == 2 * old(self).capacity,
    {
        let new_cap = self.capacity * 2;
        let mut nm = Self {
            buckets: Self::allocate_buckets(new_cap),
            len: 0,
            capacity: new_cap,
            seed: self.seed,
        };
        let ghost ob = self.buckets@;
        proof {
            lemma_count_bounds(nm.buckets@);
            assert(nm.wf());
            assert(nm.as_map() =~= map_view_upto(ob, 0)) by {
                assert(forall|k: u64| !has_key(nm.buckets@, k));
                assert(forall|k: u64| !has_key_upto(ob, 0, k));
            }
            assert(ob.take(0) =~= Seq::<Option<(u64, V)>>::empty());
        }
        let mut i: usize = 0;
        while i < self.capacity
            invariant
                i <= self.capacity,
                self.capacity == ob.len(),
                self.buckets@.len() == ob.len(),
                forall|k: int| i <= k < ob.len() ==> self.buckets@[k] == ob[k],
                nm.wf(),
                nm.capacity == new_cap,
                nm.seed == old(self).seed,
                nm.len == count_some(ob.take(i as int)),
                nm.as_map() == map_view_upto(ob, i as int),
            decreases self.capacity - i,
        {
            let ghost preb = self.buckets@;
            let slot = self.buckets.remove(i);
            self.buckets.insert(i, None);
            proof {
                assert(slot == ob[i as int]);
                assert(forall|k: int|
                    i + 1 <= k < ob.len() ==> self.buckets@[k] == preb[k] && preb[k] == ob[k]);
                lemma_prefix_view_step(ob, i as int);
                assert(ob.take(i as int + 1).drop_last() =~= ob.take(i as int));
                assert(ob.take(i as int + 1).last() == ob[i as int]);
                lemma_count_take(ob, i as int);
            }
            match slot {
                Some(p) => {
                    proof {
                        assert(occupied(ob[i as int]));
                        assert(nm.len + 1 < nm.capacity);
                        assert(!nm.as_map().contains_key(p.0)) by {
                            assert(slot_key(ob[i as int]) == p.0);
                        }
                    }
                    let prev = nm.probe_insert(p.0, p.1);
                    proof {
                        assert(slot_key(ob[i as int]) == p.0 && slot_val(ob[i as int]) == p.1);
                        assert(nm.as_map() == map_view_upto(ob, i as int + 1));
                    }
                },
                None => {
                    proof {
                        assert(!occupied(ob[i as int]));
                    }
                },
            }
            i = i + 1;
        }
        proof {
            assert(ob.take(ob.len() as int) =~= ob);
            assert(map_view_upto(ob, ob.len() as int) == map_view(ob));
        }
        *self = nm;
    }

    /// Insert `(key, value)`: returns the replaced value when the key was
    /// present, `None` otherwise.  The table grows (doubling its buckets)
    /// when three quarters of it are occupied.
    pub fn insert(&mut self, key: u64, value: V) -> (r: Option<V>)
        requires
            old(self).wf(),
            old(self).capacity <= usize::MAX / 2,
        ensures
            final(self).wf(),
            final(self).as_map() == old(self).as_map().insert(key, value),
            final(self).seed == old(self).seed,
            old(self).as_map().contains_key(key) ==> (r matches Some(v) && v == old(
                self,
            ).as_map()[key] && final(self).len == old(self).len),
            !old(self).as_map().contains_key(key) ==> r is None && final(self).len == old(self).len
                + 1,
            old(self).len < old(self).capacity / 4 * 3 ==> final(self).capacity == old(
                self,
            ).capacity,
            old(self).len >= old(self).capacity / 4 * 3 ==> final(self).capacity == 2 * old(
                self,
            ).capacity,
    {
        if self.len >= self.capacity / 4 * 3 {
            self.resize();
        }
        proof {
            lemma_fundamental_div_mod(self.capacity as int, 4);
            assert(self.len + 1 < self.capacity);
        }
        self.probe_insert(key, value)
    }

    /// An iterator over the stored entries in slot order.
    pub fn iter(&self) -> (r: Iter<'_, V>)
        ensures
            r.map == self,
            r.pos == 0,
    {
        Iter { map: self, pos: 0 }
    }
}

/// The first occupied slot at index `from` or beyond, or the bucket count
/// when there is none.
pub open spec fn next_occupied<V>(b: Seq<Option<(u64, V)>>, from: int) -> int
    decreases b.len() - from,
{
    if from < 0 || from >= b.len() {
        b.len() as int
    } else if occupied(b[from]) {
        from
    } else {
        next_occupied(b, from + 1)
    }
}

/// An iterator over a map's entries: the map and the next slot to visit.
pub struct Iter<'a, V> {
    /// The map being walked.
    pub map: &'a HashMap<V>,
    /// The next slot to look at.
    pub pos: usize,
}

impl<'a, V> Iter<'a, V> {
    /// The next occupied slot's entry, or `None` when the table is
    /// exhausted.
    #[verifier::loop_isolation(false)]
    pub fn next(&mut self) -> (r: Option<(u64, &'a V)>)
        requires
            old(self).map.wf(),
            old(self).pos <= old(self).map.capacity,
        ensures
            final(self).pos <= final(self).map.capacity,
            final(self).map == old(self).map,
            ({
                let b = old(self).map.buckets@;
                let i = next_occupied(b, old(self).pos as int);
                &&& (i < b.len() ==> (r matches Some(kv) && kv.0 == slot_key(b[i]) && *kv.1
                    == slot_val(b[i]) && final(self).pos == i + 1))
                &&& (i >= b.len() ==> r is None && final(self).pos == b.len())
            }),
    {
        let m = self.map;
        let ghost b = m.buckets@;
        while self.pos < m.capacity
            invariant
                self.map == old(self).map,
                self.pos <= m.capacity,
                next_occupied(b, old(self).pos as int) == next_occupied(b, self.pos as int),
            decreases m.capacity - self.pos,
        {
            let idx = self.pos;
            match &m.buckets[idx] {
                Some(p) => {
                    proof {
                        assert(occupied(b[idx as int]));
                        assert(next_occupied(b, idx as int) == idx);
                    }
                    self.pos = idx + 1;
                    return Some((p.0, &p.1));
                },
                None => {
                    proof {
                        assert(!occupied(b[idx as int]));
                        assert(next_occupied(b, idx as int) == next_occupied(b, idx as int + 1));
                    }
                    self.pos = idx + 1;
                },
            }
        }
        proof {
            assert(next_occupied(b, self.pos as int) == b.len());
        }
        None
    }
}

} // verus!
