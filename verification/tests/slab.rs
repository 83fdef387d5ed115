use slabby::{Key, Slab, Slab16, Slab32, Slab8, SlabSize};

#[test]
fn does_not_forget_list() {
    let mut slab = Slab32::new();
    let [a, _, c, d] = [10, 11, 12, 13].map(|v| slab.insert(v));
    slab.remove(a);
    slab.remove(c);
    slab.insert(14);
    assert_ne!(slab.insert(15), d);
}

#[test]
fn first_insert_returns_zero_key() {
    let mut s8 = Slab8::new();
    assert_eq!(s8.insert("a"), 0u8);
    let mut s16 = Slab16::new();
    assert_eq!(s16.insert("a"), 0u16);
    let mut s32 = Slab32::new();
    assert_eq!(s32.insert("a"), 0u32);
    let mut s64: Slab<&str, u64> = Slab::new();
    assert_eq!(s64.insert("a"), 0u64);
    let mut ss = SlabSize::new();
    assert_eq!(ss.insert("a"), 0usize);
}

#[test]
fn untouched_slab_issues_consecutive_keys() {
    let mut slab = Slab16::new();
    for i in 0..100u16 {
        assert_eq!(slab.next(), i);
        assert_eq!(slab.insert(u32::from(i) * 3), i);
    }
}

#[test]
fn round_trip_last_written_value() {
    let mut slab = SlabSize::new();
    let a = slab.insert(String::from("alpha"));
    let b = slab.insert(String::from("beta"));
    assert_eq!(slab.get(a).as_str(), "alpha");
    assert_eq!(slab.get(b).as_str(), "beta");
    *slab.get_mut(b) = String::from("gamma");
    assert_eq!(slab.get(b).as_str(), "gamma");
    assert_eq!(slab.get(a).as_str(), "alpha");
}

#[test]
fn free_list_is_last_freed_first_reused() {
    let mut slab = Slab32::new();
    let a = slab.insert('A');
    let b = slab.insert('B');
    let c = slab.insert('C');
    assert_eq!(slab.remove(b), 'B');
    assert_eq!(slab.remove(a), 'A');
    let d = slab.insert('D');
    assert_eq!(d, a);
    assert_eq!(slab.next(), b);
    assert_eq!(*slab.get(c), 'C');
}

#[test]
fn len_counts_inserts_minus_removes() {
    let mut slab = Slab32::new();
    assert_eq!(slab.len(), 0);
    let mut keys = Vec::new();
    for i in 0..10 {
        keys.push(slab.insert(i));
        assert_eq!(slab.len(), i as u32 + 1);
    }
    let mut removed = 0u32;
    for k in [keys[3], keys[7], keys[0]] {
        slab.remove(k);
        removed += 1;
        assert_eq!(slab.len(), 10 - removed);
    }
    slab.insert(99);
    assert_eq!(slab.len(), 8);
}

#[test]
fn remove_leaves_other_keys_untouched() {
    let mut slab = Slab8::new();
    let keys: Vec<u8> = (0..6).map(|i| slab.insert(i * 10)).collect();
    assert_eq!(slab.remove(keys[2]), 20);
    for &k in keys.iter() {
        if k != keys[2] {
            assert_eq!(*slab.get(k), i32::from(k) * 10);
        }
    }
}

#[test]
fn growth_preserves_issued_keys() {
    let mut slab = SlabSize::new();
    let mut keys = Vec::new();
    for i in 0..100usize {
        keys.push(slab.insert(i * i));
    }
    for (i, &k) in keys.iter().enumerate() {
        assert_eq!(*slab.get(k), i * i);
    }
    assert_eq!(slab.len(), 100);
}

#[test]
fn scenario_reuse_after_removals() {
    let mut slab = Slab32::new();
    let k1 = slab.insert(1);
    let k2 = slab.insert(2);
    let k3 = slab.insert(3);
    assert_eq!(k1, 0);
    assert_eq!(k2, 1);
    assert_eq!(k3, 2);
    assert_eq!(*slab.get(k1), 1);
    assert_eq!(*slab.get(k2), 2);
    assert_eq!(*slab.get(k3), 3);
    assert_eq!(slab.remove(k2), 2);
    assert_eq!(slab.remove(k1), 1);
    assert_eq!(*slab.get(k3), 3);
    // Last freed, first reused: k1's old slot comes back before k2's, and
    // only then a virgin slot.
    let k4 = slab.insert(4);
    assert_eq!(k4, k1);
    let k5 = slab.insert(5);
    assert_eq!(k5, k2);
    let k6 = slab.insert(6);
    assert_eq!(k6, 3);
    assert_eq!(slab.len(), 4);
    *slab.get_mut(k5) += 1;
    assert_eq!(slab.remove(k5), 6);
    assert_eq!(slab.len(), 3);
}

#[test]
fn narrow_key_width_reaches_its_full_range() {
    let mut slab = Slab8::new();
    for i in 0..255u16 {
        let k = slab.insert(i);
        assert_eq!(u16::from(k), i);
    }
    assert_eq!(slab.len(), 255);
    assert_eq!(*slab.get(254), 254);
    assert_eq!(slab.remove(200), 200);
    assert_eq!(slab.len(), 254);
    // With the whole key range issued, a freed slot can still be reused.
    let k = slab.insert(999);
    assert_eq!(k, 200);
    assert_eq!(slab.len(), 255);
}

#[test]
fn default_slab_is_empty() {
    let mut slab: Slab<u32, u32> = Slab::default();
    assert_eq!(slab.len(), 0);
    assert_eq!(slab.next(), 0);
    let a = slab.insert(7);
    assert_eq!(a, 0);
    assert_eq!(slab.next(), 1);
    slab.remove(a);
    assert_eq!(slab.next(), a);
    assert_eq!(slab.len(), 0);
}

#[test]
fn key_widths_increment_and_convert() {
    assert_eq!(u8::zero(), 0);
    assert_eq!(u8::zero().inc(), 1);
    assert_eq!(u16::zero().inc().inc().dec(), 1);
    assert_eq!(250u8.as_usize(), 250);
    assert_eq!(u64::zero().inc().as_usize(), 1);
    assert_eq!(usize::zero(), 0);
    assert_eq!(3u32.inc(), 4);
    assert_eq!(3u32.dec(), 2);
}
