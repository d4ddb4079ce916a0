use std::collections::BTreeMap;
use std::ops::Bound;
use veb_tree_map::VebTreeMap;

fn btree_successor(m: &BTreeMap<u32, u32>, k: u32) -> Option<(u32, u32)> {
    m.range((Bound::Excluded(k), Bound::Unbounded)).next().map(|(a, b)| (*a, *b))
}

fn btree_predecessor(m: &BTreeMap<u32, u32>, k: u32) -> Option<(u32, u32)> {
    m.range((Bound::Unbounded, Bound::Excluded(k))).next_back().map(|(a, b)| (*a, *b))
}

#[test]
fn successor_walk_enumerates_ascending() {
    let keys: Vec<u32> = vec![3, 1, u32::MAX, 77, 65536, 65535, 0, 1000000, 12];
    let mut t = VebTreeMap::<u32>::new();
    for k in keys.iter() {
        t.insert(*k, k.wrapping_mul(2));
    }
    let mut sorted = keys.clone();
    sorted.sort_unstable();

    let (mut k, v) = t.min().unwrap();
    assert_eq!(k, sorted[0]);
    assert_eq!(v, k.wrapping_mul(2));
    let mut seen: Vec<u32> = vec![k];
    loop {
        match t.successor(&k) {
            Some((nk, nv)) => {
                assert!(nk > k);
                assert_eq!(nv, nk.wrapping_mul(2));
                seen.push(nk);
                k = nk;
            },
            None => break,
        }
    }
    assert_eq!(seen, sorted);
}

#[test]
fn predecessor_walk_enumerates_descending() {
    let keys: Vec<u32> = vec![3, 1, u32::MAX, 77, 65536, 65535, 0, 1000000, 12];
    let mut t = VebTreeMap::<u32>::new();
    for k in keys.iter() {
        t.insert(*k, k.wrapping_add(7));
    }
    let mut sorted = keys.clone();
    sorted.sort_unstable();
    sorted.reverse();

    let (mut k, v) = t.max().unwrap();
    assert_eq!(k, sorted[0]);
    assert_eq!(v, k.wrapping_add(7));
    let mut seen: Vec<u32> = vec![k];
    loop {
        match t.predecessor(&k) {
            Some((pk, pv)) => {
                assert!(pk < k);
                assert_eq!(pv, pk.wrapping_add(7));
                seen.push(pk);
                k = pk;
            },
            None => break,
        }
    }
    assert_eq!(seen, sorted);
}

#[test]
fn dense_range_insert_walk_remove() {
    let mut t = VebTreeMap::<u32>::new();
    for k in 0..256u32 {
        assert_eq!(t.insert(k, k + 1000), None);
    }
    for k in 0..256u32 {
        assert_eq!(t.get(&k), Some(k + 1000));
    }
    let mut k = t.min().unwrap().0;
    assert_eq!(k, 0);
    let mut count = 1;
    while let Some((nk, nv)) = t.successor(&k) {
        assert_eq!(nk, k + 1);
        assert_eq!(nv, nk + 1000);
        k = nk;
        count += 1;
    }
    assert_eq!(count, 256);
    for e in 0..128u32 {
        t.remove(&(2 * e));
    }
    for k in 0..256u32 {
        if k % 2 == 0 {
            assert_eq!(t.get(&k), None);
        } else {
            assert_eq!(t.get(&k), Some(k + 1000));
        }
    }
    assert_eq!(t.min(), Some((1, 1001)));
    assert_eq!(t.max(), Some((255, 1255)));
    assert_eq!(t.successor(&1), Some((3, 1003)));
    assert_eq!(t.predecessor(&255), Some((253, 1253)));
    for o in 0..128u32 {
        t.remove(&(2 * o + 1));
    }
    assert!(t.is_empty());
}

#[test]
fn agrees_with_reference_ordered_map() {
    let mut t = VebTreeMap::<u32>::new();
    let mut r: BTreeMap<u32, u32> = BTreeMap::new();
    let mut state: u64 = 0x1234_5678_9abc_def0;
    let mut next = move || {
        state = state.wrapping_mul(6364136223846793005).wrapping_add(1442695040888963407);
        (state >> 16) as u32
    };
    for step in 0..2000u32 {
        let roll = next();
        // Mix small keys (to collide often) with keys spread over the universe.
        let key = if roll % 3 == 0 {
            next() % 64
        } else if roll % 3 == 1 {
            next() % 100000
        } else {
            next()
        };
        match roll % 7 {
            0 | 1 | 2 => {
                let value = step;
                assert_eq!(t.insert(key, value), r.insert(key, value), "insert {key}");
            },
            3 => {
                t.remove(&key);
                r.remove(&key);
            },
            4 => {
                assert_eq!(t.get(&key), r.get(&key).copied(), "get {key}");
            },
            5 => {
                assert_eq!(t.successor(&key), btree_successor(&r, key), "successor {key}");
            },
            _ => {
                assert_eq!(t.predecessor(&key), btree_predecessor(&r, key), "predecessor {key}");
            },
        }
        assert_eq!(t.is_empty(), r.is_empty());
        assert_eq!(t.min(), r.iter().next().map(|(a, b)| (*a, *b)));
        assert_eq!(t.max(), r.iter().next_back().map(|(a, b)| (*a, *b)));
    }
    // Drain everything through the reference keys.
    let left: Vec<u32> = r.keys().copied().collect();
    for k in left {
        t.remove(&k);
        r.remove(&k);
        assert_eq!(t.min(), r.iter().next().map(|(a, b)| (*a, *b)));
    }
    assert!(t.is_empty());
}
