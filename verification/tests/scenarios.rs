use veb_tree_map::keys::{key_combine, key_high, key_low};
use veb_tree_map::VebTreeMap;

#[test]
fn key_split_and_recombine() {
    assert_eq!(key_high(0x0001_0002, 16), 1);
    assert_eq!(key_low(0x0001_0002, 16), 2);
    assert_eq!(key_combine(1, 2, 16), 0x0001_0002);
    assert_eq!(key_high(u32::MAX, 16), 0xffff);
    assert_eq!(key_low(u32::MAX, 16), 0xffff);
    assert_eq!(key_combine(0xffff, 0xffff, 16), u32::MAX);
    assert_eq!(key_high(0xab, 4), 0xa);
    assert_eq!(key_low(0xab, 4), 0xb);
    assert_eq!(key_combine(0xa, 0xb, 4), 0xab);
    assert_eq!(key_high(5, 0), 5);
    assert_eq!(key_low(5, 0), 0);
}

#[test]
fn empty_tree_answers() {
    let t = VebTreeMap::<u32>::new();
    assert!(t.is_empty());
    assert_eq!(t.get(&0), None);
    assert_eq!(t.get(&u32::MAX), None);
    assert_eq!(t.min(), None);
    assert_eq!(t.max(), None);
    assert_eq!(t.successor(&0), None);
    assert_eq!(t.predecessor(&u32::MAX), None);
}

#[test]
fn remove_is_idempotent() {
    let mut t = VebTreeMap::<u32>::new();
    t.remove(&7);
    assert!(t.is_empty());
    t.insert(5, 50);
    t.insert(9, 90);
    t.remove(&7);
    t.remove(&9);
    t.remove(&9);
    assert_eq!(t.get(&5), Some(50));
    assert_eq!(t.get(&9), None);
    assert_eq!(t.min(), Some((5, 50)));
    assert_eq!(t.max(), Some((5, 50)));
}

#[test]
fn boundary_keys() {
    let mut t = VebTreeMap::<u32>::new();
    t.insert(0, 7);
    t.insert(u32::MAX, 8);
    assert_eq!(t.get(&0), Some(7));
    assert_eq!(t.get(&u32::MAX), Some(8));
    assert_eq!(t.min(), Some((0, 7)));
    assert_eq!(t.max(), Some((u32::MAX, 8)));
    assert_eq!(t.successor(&0), Some((u32::MAX, 8)));
    assert_eq!(t.predecessor(&u32::MAX), Some((0, 7)));
    assert_eq!(t.predecessor(&0), None);
    assert_eq!(t.successor(&u32::MAX), None);
    t.remove(&0);
    assert_eq!(t.min(), Some((u32::MAX, 8)));
    t.remove(&u32::MAX);
    assert!(t.is_empty());
}

#[test]
fn insert_below_singleton_returns_none() {
    let mut t = VebTreeMap::<u32>::new();
    assert_eq!(t.insert(5, 50), None);
    assert_eq!(t.insert(3, 30), None);
    assert_eq!(t.get(&3), Some(30));
    assert_eq!(t.get(&5), Some(50));
    assert_eq!(t.min(), Some((3, 30)));
    assert_eq!(t.max(), Some((5, 50)));
}

#[test]
fn remove_min_promotes_from_cluster() {
    let mut t = VebTreeMap::<u32>::new();
    t.insert(1, 10);
    t.insert(4, 40);
    t.insert(6, 60);
    t.remove(&1);
    assert_eq!(t.min(), Some((4, 40)));
    assert_eq!(t.get(&4), Some(40));
    assert_eq!(t.successor(&4), Some((6, 60)));
    assert_eq!(t.get(&1), None);
}

#[test]
fn overwrite_after_max_promotion() {
    let mut t = VebTreeMap::<u32>::new();
    t.insert(1, 10);
    t.insert(4, 40);
    t.insert(6, 60);
    t.remove(&6);
    assert_eq!(t.max(), Some((4, 40)));
    // Overwriting the promoted maximum must be seen by every query.
    assert_eq!(t.insert(4, 99), Some(40));
    assert_eq!(t.get(&4), Some(99));
    assert_eq!(t.successor(&1), Some((4, 99)));
    assert_eq!(t.predecessor(&5), Some((4, 99)));
    // Inserting above it must report the new key as fresh.
    assert_eq!(t.insert(9, 90), None);
    assert_eq!(t.max(), Some((9, 90)));
    assert_eq!(t.get(&4), Some(99));
}

#[test]
fn remove_in_both_orders() {
    let mut t = VebTreeMap::<u32>::new();
    t.insert(0, 0);
    t.insert(1, 1);
    t.remove(&0);
    assert_eq!(t.get(&0), None);
    assert_eq!(t.get(&1), Some(1));
    assert_eq!(t.min(), Some((1, 1)));

    let mut u = VebTreeMap::<u32>::new();
    u.insert(1, 1);
    u.insert(0, 0);
    u.remove(&1);
    assert_eq!(u.get(&1), None);
    assert_eq!(u.get(&0), Some(0));
    assert_eq!(u.min(), Some((0, 0)));
}

#[test]
fn keys_sharing_high_halves() {
    let mut t = VebTreeMap::<u32>::new();
    let keys: [u32; 6] = [
        0x0001_0002,
        0x0001_0003,
        0x0001_fffe,
        0x0002_0002,
        0x7fff_0001,
        0x7fff_0002,
    ];
    for (i, k) in keys.iter().enumerate() {
        assert_eq!(t.insert(*k, i as u32), None);
    }
    for (i, k) in keys.iter().enumerate() {
        assert_eq!(t.get(k), Some(i as u32));
    }
    assert_eq!(t.successor(&0x0001_0003), Some((0x0001_fffe, 2)));
    assert_eq!(t.successor(&0x0001_fffe), Some((0x0002_0002, 3)));
    assert_eq!(t.predecessor(&0x7fff_0001), Some((0x0002_0002, 3)));
    t.remove(&0x0001_fffe);
    assert_eq!(t.successor(&0x0001_0003), Some((0x0002_0002, 3)));
    assert_eq!(t.get(&0x0001_0002), Some(0));
    assert_eq!(t.get(&0x0001_0003), Some(1));
}

#[test]
fn clear_then_reuse() {
    let mut t = VebTreeMap::<u32>::new();
    t.insert(10, 1);
    t.insert(20, 2);
    t.clear();
    assert!(t.is_empty());
    assert_eq!(t.get(&10), None);
    assert_eq!(t.insert(30, 3), None);
    assert_eq!(t.min(), Some((30, 3)));
    assert_eq!(t.max(), Some((30, 3)));
}

#[test]
fn min_max_track_the_live_set() {
    let mut t = VebTreeMap::<u32>::new();
    t.insert(500, 5);
    t.insert(100, 1);
    t.insert(900, 9);
    t.insert(300, 3);
    assert_eq!(t.min(), Some((100, 1)));
    assert_eq!(t.max(), Some((900, 9)));
    t.remove(&100);
    assert_eq!(t.min(), Some((300, 3)));
    t.remove(&900);
    assert_eq!(t.max(), Some((500, 5)));
    t.remove(&500);
    assert_eq!(t.min(), Some((300, 3)));
    assert_eq!(t.max(), Some((300, 3)));
}
