use kmem::DefaultHasher;
use kmem::HashMap;

#[test]
fn new_map_is_empty() {
    let m: HashMap<u32> = HashMap::new();
    assert_eq!(m.len, 0);
    assert_eq!(m.capacity, 16);
    assert!(m.get(7).is_none());
}

#[test]
fn insert_then_get_returns_value() {
    let mut m: HashMap<u32> = HashMap::new();
    assert_eq!(m.insert(1, 10), None);
    assert_eq!(m.insert(2, 20), None);
    assert_eq!(m.get(1), Some(&10));
    assert_eq!(m.get(2), Some(&20));
    assert_eq!(m.get(3), None);
    assert_eq!(m.len, 2);
}

#[test]
fn insert_replaces_and_returns_old_value() {
    let mut m: HashMap<u32> = HashMap::new();
    m.insert(5, 50);
    assert_eq!(m.insert(5, 55), Some(50));
    assert_eq!(m.get(5), Some(&55));
    assert_eq!(m.len, 1);
}

#[test]
fn colliding_keys_both_found() {
    // Eight keys squeezed into the 16-slot table force probe chains;
    // every entry must still be found.
    let mut m: HashMap<u32> = HashMap::new();
    for k in 0..8u64 {
        m.insert(k * 16 + 3, k as u32);
    }
    for k in 0..8u64 {
        assert_eq!(m.get(k * 16 + 3), Some(&(k as u32)));
    }
}

#[test]
fn resize_keeps_all_entries() {
    let mut m: HashMap<u64> = HashMap::new();
    for k in 0..40u64 {
        m.insert(k, k * k);
    }
    assert_eq!(m.len, 40);
    assert!(m.capacity > 16);
    for k in 0..40u64 {
        assert_eq!(m.get(k), Some(&(k * k)));
    }
    assert!(m.get(40).is_none());
}

#[test]
fn iter_yields_every_entry_once() {
    let mut m: HashMap<u32> = HashMap::new();
    m.insert(1, 10);
    m.insert(2, 20);
    m.insert(3, 30);
    let mut seen: Vec<(u64, u32)> = Vec::new();
    let mut it = m.iter();
    while let Some((k, v)) = it.next() {
        seen.push((k, *v));
    }
    assert_eq!(seen.len(), 3);
    seen.sort();
    assert_eq!(seen, vec![(1, 10), (2, 20), (3, 30)]);
}

#[test]
fn seeded_maps_agree_on_contents() {
    let mut a: HashMap<u32> = HashMap::with_seed(0xdead_beef);
    let mut b: HashMap<u32> = HashMap::new();
    for k in 0..10u64 {
        a.insert(k, k as u32 + 1);
        b.insert(k, k as u32 + 1);
    }
    for k in 0..10u64 {
        assert_eq!(a.get(k), b.get(k));
    }
}

#[test]
fn hasher_folds_bytes_multiply_add() {
    // Starting from zero, folding [1, 2] gives 1 * 0x100_0193 + 2.
    let mut h = DefaultHasher::new();
    assert_eq!(h.finish(), 0);
    h.write(&[1, 2]);
    assert_eq!(h.finish(), 0x0100_0193 + 2);
}

#[test]
fn hasher_empty_write_keeps_state() {
    let mut h = DefaultHasher::new();
    h.write(&[]);
    assert_eq!(h.finish(), 0);
}
