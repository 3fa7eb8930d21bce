use handle_box::{Handle, HandleBox};

#[test]
fn test_new() {
    let c = HandleBox::<i32>::new();
    assert!(c.map.is_empty());
}

#[test]
fn test_add_remove() {
    let mut c = HandleBox::new();
    let h1 = c.add(888);
    assert!(!c.map.is_empty());
    assert_eq!(c.get(&h1).unwrap(), &888);

    let h2 = c.add(999);
    assert_eq!(c.map.values().len(), 2);
    assert_eq!(c.get(&h2).unwrap(), &999);

    c.remove(&h2);
    assert_eq!(c.map.values().len(), 1);
    assert!(c.get(&h2).is_none());

    c.remove(&h1);
    assert!(c.map.is_empty());
    assert!(c.get(&h1).is_none());
}

#[test]
fn test_add_remove_add() {
    let mut c = HandleBox::new();
    c.add(888);

    let h2 = c.add(999);
    c.remove(&h2);

    let h3 = c.add(555);
    assert_eq!(h2, h3); // Because the handle gets re-used
}

#[test]
fn test_live_count_and_returned_values() {
    let mut c = HandleBox::new();
    assert_eq!(c.map.len(), 0);

    let h1 = c.add(888);
    assert_eq!(c.get(&h1), Some(&888));

    let h2 = c.add(999);
    assert_ne!(h1, h2);
    assert_eq!(c.get(&h2), Some(&999));

    assert_eq!(c.remove(&h2), Some(999));
    assert_eq!(c.map.len(), 1);

    assert_eq!(c.remove(&h1), Some(888));
    assert_eq!(c.map.len(), 0);
}

#[test]
fn test_double_removal() {
    let mut c = HandleBox::new();
    let h = c.add(10);
    assert_eq!(c.remove(&h), Some(10));
    let live_before = c.map.len();
    assert_eq!(c.remove(&h), None);
    assert_eq!(c.map.len(), live_before);
}

#[test]
fn test_removed_handle_is_dead() {
    let mut c = HandleBox::new();
    let h = c.add(7);
    c.remove(&h);
    assert!(c.get(&h).is_none());
    assert!(c.get_mut(&h).is_none());
    assert_eq!(c.remove(&h), None);
}

#[test]
fn test_mutate_in_place() {
    let mut c = HandleBox::new();
    let h = c.add(1);
    {
        let v = c.get_mut(&h).unwrap();
        *v = 2;
    }
    assert_eq!(c.get(&h), Some(&2));
    assert_eq!(c.map.len(), 1);
}

#[test]
fn test_absent_handle() {
    let mut c = HandleBox::<u64>::new();
    let missing: Handle = 42;
    assert!(c.get(&missing).is_none());
    assert!(c.get_mut(&missing).is_none());
    assert_eq!(c.remove(&missing), None);
}

#[test]
fn test_fresh_growth() {
    let mut c = HandleBox::new();
    let h0 = c.add("a");
    let h1 = c.add("b");
    let h2 = c.add("c");
    assert_eq!(h0, 0);
    assert_eq!(h1, 1);
    assert_eq!(h2, 2);
}

#[test]
fn test_round_trip() {
    let mut c = HandleBox::new();
    for v in [0i64, -3, 888, i64::MAX, i64::MIN] {
        let h = c.add(v);
        assert_eq!(c.get(&h), Some(&v));
    }
}

#[test]
fn test_duplicate_values_get_distinct_handles() {
    let mut c = HandleBox::new();
    let h1 = c.add(5);
    let h2 = c.add(5);
    assert_ne!(h1, h2);
    assert_eq!(c.map.len(), 2);
}

#[test]
fn test_reuse_stack_order() {
    let mut c = HandleBox::new();
    let h1 = c.add(1);
    let h2 = c.add(2);
    let _h3 = c.add(3);

    assert_eq!(c.remove(&h1), Some(1));
    assert_eq!(c.remove(&h2), Some(2));

    // The most recently freed handle is reused first.
    assert_eq!(c.add(20), h2);
    assert_eq!(c.add(10), h1);
}

#[test]
fn test_live_handles_stay_distinct() {
    let mut c = HandleBox::new();
    let ha = c.add('a');
    let hb = c.add('b');
    let hc = c.add('c');
    assert_eq!(c.remove(&hb), Some('b'));
    let hd = c.add('d');
    assert_eq!(hd, hb); // freed, so eligible again
    assert_ne!(ha, hc);
    assert_ne!(ha, hd);
    assert_ne!(hc, hd);

    let keys: Vec<Handle> = c.map.keys().copied().collect();
    for i in 0..keys.len() {
        for j in (i + 1)..keys.len() {
            assert_ne!(keys[i], keys[j]);
        }
    }
}

#[test]
fn test_default_is_empty() {
    let c = HandleBox::<String>::default();
    assert!(c.map.is_empty());
}

#[test]
fn test_map_exposes_live_entries() {
    let mut c = HandleBox::new();
    let h1 = c.add(11);
    let h2 = c.add(22);
    c.remove(&h1);
    let pairs: Vec<(Handle, i32)> = c.map.iter().map(|(k, v)| (*k, *v)).collect();
    assert_eq!(pairs, vec![(h2, 22)]);
}
