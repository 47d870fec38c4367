use heapo::pairing_heap::PairingHeap;
use rand::RngExt;

#[test]
fn empty_heap_has_is_empty_true() {
    let heap = PairingHeap::new();
    assert_eq!(heap.is_empty(), true);
}

#[test]
fn non_empty_heap_has_is_empty_false() {
    let mut heap = PairingHeap::new();
    heap.insert(42);
    assert_eq!(heap.is_empty(), false);
}

#[test]
fn insert_rearranges_the_heap() {
    let mut min = i64::MAX;
    let mut rng = rand::rng();

    let mut heap = PairingHeap::new();
    for _ in 0..1000 {
        let rand_num: i64 = rng.random_range(-52335235..832932);
        if rand_num < min {
            min = rand_num;
        }

        heap.insert(rand_num);
        assert_eq!(heap.peek().unwrap(), &min);
    }
}

#[test]
fn delete_min_actually_deletes_min() {
    let mut heap = PairingHeap::new();
    heap.insert(24);
    heap.insert(5);
    heap.insert(14);
    assert_eq!(heap.peek(), Some(&5));
    heap.delete();
    assert_eq!(heap.peek(), Some(&14));
    heap.delete();
    assert_eq!(heap.peek(), Some(&24));
    heap.delete();
    assert_eq!(heap.peek(), None);
    assert_eq!(heap.is_empty(), true);
}

#[test]
fn pop_min_actually_pops_min() {
    let mut heap = PairingHeap::new();
    heap.insert(253);
    heap.insert(1231);
    heap.insert(65);
    assert_eq!(heap.pop(), Some(65));
    assert_eq!(heap.pop(), Some(253));
    assert_eq!(heap.pop(), Some(1231));
    assert_eq!(heap.peek(), None);
    assert_eq!(heap.pop(), None);
    assert_eq!(heap.is_empty(), true);
}

#[test]
fn two_inserts_pop_in_order() {
    let mut heap = PairingHeap::new();
    heap.insert(10);
    heap.insert(3);
    assert_eq!(heap.peek(), Some(&3));
    assert_eq!(heap.pop(), Some(3));
    assert_eq!(heap.pop(), Some(10));
    assert!(heap.is_empty());
}

#[test]
fn pop_extracts_sorted_order() {
    let elems: [i64; 12] = [7, -3, 42, 0, 7, -3, 19, 1000000, -52335235, 65, 7, 2];
    let mut heap = PairingHeap::new();
    for &e in elems.iter() {
        heap.insert(e);
    }
    let mut popped = Vec::new();
    while let Some(v) = heap.pop() {
        popped.push(v);
    }
    assert_eq!(popped.len(), elems.len());
    for w in popped.windows(2) {
        assert!(w[0] <= w[1]);
    }
    let mut sorted = elems.to_vec();
    sorted.sort();
    assert_eq!(popped, sorted);
}

#[test]
fn delete_behaves_like_pop_discarded() {
    let elems: [i64; 8] = [24, 5, 14, 5, -9, 100, 0, 24];
    let mut by_delete = PairingHeap::new();
    let mut by_pop = PairingHeap::new();
    for &e in elems.iter() {
        by_delete.insert(e);
        by_pop.insert(e);
    }
    by_delete.delete();
    let _ = by_pop.pop();
    loop {
        let a = by_delete.pop();
        let b = by_pop.pop();
        assert_eq!(a, b);
        if a.is_none() {
            break;
        }
    }
    assert!(by_delete.is_empty());
    assert!(by_pop.is_empty());
}

#[test]
fn n_inserts_need_n_pops() {
    let n: i64 = 100;
    let mut heap = PairingHeap::new();
    for i in 0..n {
        heap.insert((i * 37) % 11 - 5);
    }
    for _ in 0..n {
        assert!(heap.pop().is_some());
    }
    assert_eq!(heap.pop(), None);
    assert!(heap.is_empty());
}

#[test]
fn pop_and_delete_on_empty_heap_are_no_ops() {
    let mut heap = PairingHeap::new();
    assert_eq!(heap.pop(), None);
    assert!(heap.is_empty());
    heap.delete();
    assert!(heap.is_empty());
    assert_eq!(heap.pop(), None);
    assert_eq!(heap.peek(), None);
    heap.delete();
    assert!(heap.is_empty());
}

#[test]
fn duplicate_elements_all_come_out() {
    let mut heap = PairingHeap::new();
    heap.insert(5);
    heap.insert(5);
    heap.insert(3);
    heap.insert(5);
    assert_eq!(heap.pop(), Some(3));
    assert_eq!(heap.pop(), Some(5));
    assert_eq!(heap.pop(), Some(5));
    assert_eq!(heap.pop(), Some(5));
    assert_eq!(heap.pop(), None);
}

#[test]
fn extreme_values() {
    let mut heap = PairingHeap::new();
    heap.insert(i64::MAX);
    heap.insert(0);
    heap.insert(i64::MIN);
    assert_eq!(heap.peek(), Some(&i64::MIN));
    assert_eq!(heap.pop(), Some(i64::MIN));
    assert_eq!(heap.pop(), Some(0));
    assert_eq!(heap.pop(), Some(i64::MAX));
    assert_eq!(heap.pop(), None);
}

#[test]
fn peek_tracks_running_minimum_across_removals() {
    let elems: [i64; 9] = [8, 2, 9, 2, -1, 30, 4, -1, 17];
    let mut heap = PairingHeap::new();
    let mut present: Vec<i64> = Vec::new();
    for &e in elems.iter() {
        heap.insert(e);
        present.push(e);
        assert_eq!(heap.peek(), present.iter().min());
    }
    while !present.is_empty() {
        assert_eq!(heap.peek(), present.iter().min());
        let v = heap.pop().unwrap();
        let i = present.iter().position(|&x| x == v).unwrap();
        present.remove(i);
    }
    assert_eq!(heap.peek(), None);
}
