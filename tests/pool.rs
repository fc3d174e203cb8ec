use game_core::pool::Pool;

#[derive(Debug, PartialEq, Eq)]
struct NonClone(i32);

#[test]
fn push_get_remove_basic() {
    let mut pool = Pool::new();

    let a = pool.push(10);
    let b = pool.push(20);

    assert_eq!(pool.get(a), Some(&10));
    assert_eq!(pool.get(b), Some(&20));

    let removed = pool.remove(a);
    assert_eq!(removed, Some(10));
    assert_eq!(pool.get(a), None);

    assert_eq!(pool.get(b), Some(&20));
}

#[test]
fn reuse_index_and_bump_generation() {
    let mut pool = Pool::new();

    let h1 = pool.push(111);
    let idx = h1.index();
    let gen1 = h1.generation();

    assert_eq!(pool.remove(h1), Some(111));
    assert_eq!(pool.get(h1), None);

    let h2 = pool.push(222);
    assert_eq!(h2.index(), idx);
    assert_ne!(h2.generation(), gen1);
    assert_eq!(pool.get(h2), Some(&222));
}

#[test]
fn get_mut_updates_value() {
    let mut pool = Pool::new();
    let h = pool.push(5);
    if let Some(x) = pool.get_mut(h) {
        *x *= 3;
    }
    assert_eq!(pool.get(h), Some(&15));
}

#[test]
fn remove_is_move_not_clone() {
    let mut pool = Pool::new();
    let h = pool.push(NonClone(7));
    let v = pool.remove(h);
    assert_eq!(v, Some(NonClone(7)));
    assert_eq!(pool.get(h), None);
}

#[test]
fn iter_sees_only_live_elements() {
    let mut pool = Pool::new();
    let _h1 = pool.push(1);
    let h2 = pool.push(2);
    let _h3 = pool.push(3);

    assert_eq!(pool.remove(h2), Some(2));

    let items: Vec<(u32, u32, i32)> = pool
        .iter()
        .into_iter()
        .map(|(h, v)| (h.index(), h.generation(), *v))
        .collect();

    assert_eq!(items.len(), 2);
    assert!(items.iter().any(|(_, _, v)| *v == 1));
    assert!(items.iter().any(|(_, _, v)| *v == 3));
    assert_eq!(pool.get(h2), None);
}

#[test]
fn iter_mut_can_mutate_all_live() {
    let mut pool = Pool::new();
    let _h1 = pool.push(2);
    let h2 = pool.push(3);
    let _h3 = pool.push(5);

    assert!(pool.remove(h2).is_some());

    for (_h, v) in pool.iter_mut() {
        *v *= 10;
    }

    let vals: Vec<i32> = pool.iter().into_iter().map(|(_, v)| *v).collect();
    assert_eq!(vals.len(), 2);
    assert!(vals.contains(&20));
    assert!(vals.contains(&50));
}

#[test]
fn with_capacity_basic_ops_and_reuse() {
    let mut pool: Pool<i32> = Pool::with_capacity(128);

    let hs: Vec<_> = (0..10).map(|i| pool.push(i as i32)).collect();
    for (i, h) in hs.iter().enumerate() {
        assert_eq!(*pool.get(*h).unwrap(), i as i32);
    }

    for (i, h) in hs.iter().enumerate().step_by(2) {
        assert_eq!(pool.remove(*h), Some(i as i32));
        assert!(pool.get(*h).is_none());
    }

    let g = pool.push(123);
    assert_eq!(pool.get(g), Some(&123));
}

#[test]
fn stale_handle_after_reuse_is_rejected() {
    let mut pool = Pool::new();
    let h1 = pool.push(1);
    assert_eq!(pool.remove(h1), Some(1));
    let h2 = pool.push(2);
    if h1.index() == h2.index() {
        assert_eq!(pool.get(h1), None);
        assert_eq!(pool.get(h2), Some(&2));
    }
}

#[test]
fn len_counts_live_values_only() {
    let mut pool = Pool::new();
    assert_eq!(pool.len(), 0);
    let a = pool.push('a');
    let _b = pool.push('b');
    assert_eq!(pool.len(), 2);
    pool.remove(a);
    assert_eq!(pool.len(), 1);
    assert_eq!(pool.remove(a), None);
    assert_eq!(pool.len(), 1);
    pool.push('c');
    assert_eq!(pool.len(), 2);
}

#[test]
fn freed_slots_are_reused_last_freed_first() {
    let mut pool = Pool::new();
    let a = pool.push(0);
    let b = pool.push(1);
    let c = pool.push(2);
    pool.remove(a);
    pool.remove(c);
    let d = pool.push(3);
    assert_eq!(d.index(), c.index());
    assert_eq!(d.generation(), 3);
    let e = pool.push(4);
    assert_eq!(e.index(), a.index());
    let f = pool.push(5);
    assert_eq!(f.index(), 3);
    assert_eq!(f.generation(), 1);
    assert_eq!(pool.get(b), Some(&1));
}

#[test]
fn removed_handle_stays_stale_after_reuse() {
    let mut pool = Pool::new();
    let h = pool.push(String::from("first"));
    assert_eq!(pool.remove(h), Some(String::from("first")));
    assert!(pool.get(h).is_none());
    assert!(pool.get_mut(h).is_none());
    let h2 = pool.push(String::from("second"));
    assert_eq!(h2.index(), h.index());
    assert_ne!(h2.generation(), h.generation());
    assert!(pool.get(h).is_none());
    assert_eq!(pool.remove(h), None);
    assert_eq!(pool.get(h2).map(|s| s.as_str()), Some("second"));
}

#[test]
fn iteration_yields_each_live_value_once_in_slot_order() {
    let mut pool = Pool::new();
    let hs: Vec<_> = (0..6).map(|i| pool.push(i * 100)).collect();
    pool.remove(hs[1]);
    pool.remove(hs[4]);
    let n = pool.push(999);
    let seen: Vec<(u32, i32)> = pool.iter().into_iter().map(|(h, v)| (h.index(), *v)).collect();
    assert_eq!(seen, vec![(0, 0), (2, 200), (3, 300), (4, 999), (5, 500)]);
    let handles: Vec<_> = pool.iter_mut().into_iter().map(|(h, _)| h).collect();
    assert_eq!(handles.len(), 5);
    assert!(handles.contains(&n));
    assert!(!handles.contains(&hs[1]));
    assert!(!handles.contains(&hs[4]));
}
