use rlu::rlu::{Change, Node, RLU_MAX_FREE_NODES, RLU_MAX_THREADS};
use rlu::{ConcurrentBTreeSet, ConcurrentSet, RluCore, RluSet};

#[test]
fn set_simple() {
    let set = RluSet::new();

    assert!(!set.contains(0));
    assert!(!set.delete(0));
    assert!(set.insert(2));
    println!("Ins 0: {}", set.to_string());

    assert!(set.insert(0));
    assert!(set.insert(1));
    println!("Ins 1: {}", set.to_string());

    for i in 0..=2 {
        assert!(set.contains(i));
    }

    assert!(!set.contains(5));
    println!("Contains");

    assert!(set.delete(1));
    println!("Del 1: {}", set.to_string());

    assert!(!set.contains(1));

    assert!(set.delete(0));
    assert!(!set.contains(0));

    assert!(set.delete(2));
    println!("Del 2: {}", set.to_string());
}

#[test]
fn set_sequence_ends_empty() {
    let set = RluSet::new();
    assert!(set.insert(2));
    assert!(set.contains(2));
    assert!(set.insert(0));
    assert!(set.insert(1));
    assert_eq!(set.to_string(), "{0, 1, 2}");
    assert!(set.delete(1));
    assert!(!set.contains(1));
    assert!(set.delete(0));
    assert!(set.delete(2));
    assert_eq!(set.len(), 0);
    assert_eq!(set.to_string(), "{}");
}

#[test]
fn insert_twice_then_delete_twice() {
    let set = RluSet::new();
    assert_eq!((set.insert(7), set.insert(7)), (true, false));
    assert_eq!(set.len(), 1);
    assert_eq!((set.delete(7), set.delete(7)), (true, false));
    assert_eq!(set.len(), 0);
}

#[test]
fn writes_to_odd_keys_leave_even_keys() {
    let set = RluSet::new();
    for i in 0..100u64 {
        assert!(set.insert(i * 2));
    }
    let writer = set.clone_ref();
    for i in 0..99u64 {
        let k = i * 2 + 1;
        if i % 3 == 0 {
            writer.insert(k);
        } else {
            writer.delete(k);
        }
        assert!(set.contains((i % 100) * 2));
    }
    for i in 0..100u64 {
        assert!(set.contains(i * 2));
    }
}

#[test]
fn len_matches_replayed_log() {
    let set = RluSet::new();
    let ops: Vec<(bool, u64)> = vec![
        (true, 5), (true, 3), (false, 5), (true, 9), (true, 3), (false, 4), (true, 5), (false, 9),
        (true, 11), (true, 0),
    ];
    let mut model: Vec<u64> = Vec::new();
    for (ins, v) in ops {
        if ins {
            let added = set.insert(v);
            assert_eq!(added, !model.contains(&v));
            if added {
                model.push(v);
            }
        } else {
            let removed = set.delete(v);
            assert_eq!(removed, model.contains(&v));
            model.retain(|x| *x != v);
        }
    }
    model.sort();
    assert_eq!(set.len(), model.len());
    assert_eq!(set.to_string(), "{0, 3, 5, 11}");
}

#[test]
fn clone_ref_shares_the_set() {
    let a = RluSet::new();
    let b = a.clone_ref();
    assert!(a.insert(42));
    assert!(b.contains(42));
    assert!(!b.insert(42));
    assert!(b.delete(42));
    assert!(!a.contains(42));
}

#[test]
fn largest_element() {
    let set = RluSet::new();
    assert!(set.insert(u64::MAX));
    assert!(set.insert(0));
    assert_eq!(set.to_string(), format!("{{0, {}}}", u64::MAX));
    assert!(set.delete(u64::MAX));
    assert_eq!(set.len(), 1);
}

#[test]
fn baseline_set_behaves_alike() {
    let set = ConcurrentBTreeSet::new();
    assert!(!set.contains(0));
    assert!(set.insert(2));
    assert!(!set.insert(2));
    assert!(set.insert(1));
    let other = set.clone_ref();
    assert_eq!(other.len(), 2);
    assert!(other.delete(1));
    assert!(!set.delete(1));
    assert!(set.contains(2));
}

#[test]
fn registry_is_bounded() {
    let mut core = RluCore::new();
    let mut ids = Vec::new();
    for _ in 0..RLU_MAX_THREADS {
        ids.push(core.register().expect("a free slot"));
    }
    assert_eq!(core.register(), None);
    core.deregister(ids[3]);
    assert_eq!(core.register(), Some(ids[3]));
}

#[test]
fn core_insert_delete_and_clock() {
    let mut core = RluCore::new();
    let ctx = core.register().unwrap();
    assert_eq!(core.insert(ctx, 10), Some(true));
    assert_eq!(core.insert(ctx, 10), Some(false));
    assert_eq!(core.clock_read(), 1);
    assert_eq!(core.insert(ctx, 5), Some(true));
    assert_eq!(core.to_string(), "{5, 10}");
    assert_eq!(core.delete(ctx, 7), Some(false));
    assert_eq!(core.delete(ctx, 10), Some(true));
    assert_eq!(core.clock_read(), 3);
    assert!(core.contains(ctx, 5));
    assert!(!core.contains(ctx, 10));
    assert_eq!(core.len(), 1);
}

#[test]
fn locate_and_dereference() {
    let mut core = RluCore::new();
    let ctx = core.register().unwrap();
    for v in [3u64, 8, 20] {
        core.insert(ctx, v);
    }
    assert_eq!(core.locate(ctx, 0), 0);
    assert_eq!(core.locate(ctx, 8), 1);
    assert_eq!(core.locate(ctx, 9), 2);
    assert_eq!(core.locate(ctx, 21), 3);
    assert_eq!(core.dereference(ctx, 2).value, 20);
}

#[test]
fn conflicting_lock_rolls_back() {
    let mut core = RluCore::new();
    let a = core.register().unwrap();
    let b = core.register().unwrap();
    core.insert(a, 1);
    core.insert(a, 5);
    assert!(core.try_lock(a, 0));
    assert!(core.try_lock(a, 0));
    assert!(!core.try_lock(b, 0));
    // another context holds a lock: the write is refused and leaves no trace
    assert_eq!(core.insert(b, 3), None);
    assert_eq!(core.delete(b, 5), None);
    assert_eq!(core.to_string(), "{1, 5}");
    // a value that is already present needs no lock
    assert_eq!(core.insert(b, 5), Some(false));
    core.abort(a);
    assert_eq!(core.insert(b, 3), Some(true));
    assert_eq!(core.to_string(), "{1, 3, 5}");
}

#[test]
fn retired_nodes_wait_for_readers() {
    let mut core = RluCore::new();
    let w = core.register().unwrap();
    let r = core.register().unwrap();
    core.insert(w, 1);
    core.insert(w, 2);
    core.begin_read(r);
    assert_eq!(core.delete(w, 1), Some(true));
    // the reader's snapshot predates the commit: the node stays on the free list
    assert_eq!(core.free_list.len(), 1);
    core.reclaim(w);
    assert_eq!(core.free_list.len(), 1);
    assert_eq!(core.min_active_epoch(w), Some(2));
    core.end_read(r);
    core.reclaim(w);
    assert_eq!(core.free_list.len(), 0);
    assert_eq!(core.min_active_epoch(w), None);
}

#[test]
fn full_free_list_refuses_delete() {
    let mut core = RluCore::new();
    let w = core.register().unwrap();
    let r = core.register().unwrap();
    for v in 0..(RLU_MAX_FREE_NODES as u64 + 1) {
        core.insert(w, v);
    }
    core.begin_read(r);
    for v in 0..(RLU_MAX_FREE_NODES as u64) {
        assert_eq!(core.delete(w, v), Some(true));
    }
    assert_eq!(core.free_list.len(), RLU_MAX_FREE_NODES);
    assert_eq!(core.delete(w, RLU_MAX_FREE_NODES as u64), None);
    core.end_read(r);
    assert_eq!(core.delete(w, RLU_MAX_FREE_NODES as u64), Some(true));
    assert_eq!(core.len(), 0);
}

#[test]
fn commit_stamps_and_links() {
    let mut core = RluCore::new();
    let w = core.register().unwrap();
    let stamp = core.commit(w, Change::Link { at: 0, node: Node { value: 4 } });
    assert_eq!(stamp, 1);
    assert_eq!(core.headers[0].commit_clock, 1);
    assert_eq!(core.to_string(), "{4}");
    let stamp = core.commit(w, Change::Unlink { at: 0 });
    assert_eq!(stamp, 2);
    assert_eq!(core.len(), 0);
}
