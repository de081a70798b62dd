use vec_impl::KeyWithOffset;
use vec_impl::MyHeap;
use vec_impl::MyMaxHeap;
use vec_impl::MyMaxHeapKeys;
use vec_impl::MyMinHeap;
use vec_impl::MyMinHeapKeys;
use vec_impl::TotalPreorder;

#[test]
fn test_none() {
    let mut heap: MyMaxHeap<i32> = MyMaxHeap::new();
    assert_eq!(heap.top(), None);
    assert_eq!(heap.pop(), None);
    let mut heap: MyMinHeap<i32> = MyMinHeap::new();
    assert_eq!(heap.top(), None);
    assert_eq!(heap.pop(), None);
}

#[test]
fn test_heap_sort() {
    let sorted_vec = vec![9, 8, 7, 6, 5, 4, 3, 2, 1];
    let rev_sorted_vec = vec![1, 2, 3, 4, 5, 6, 7, 8, 9];
    let mut heap = MyMaxHeap::from_vec(rev_sorted_vec.clone());
    assert_eq!(heap.to_vec(), sorted_vec);
    let mut heap = MyMinHeap::from_vec(sorted_vec);
    assert_eq!(heap.to_vec(), rev_sorted_vec);
}

#[test]
fn test_key_val_sort() {
    let sorted_vec = vec![(9, 'j'), (8, 'i'), (7, 'h'), (6, 'g'), (5, 'f'), (4, 'e'), (3, 'd'), (2, 'c'), (1, 'b')];
    let rev_sorted_vec = vec![(1, 'b'), (2, 'c'), (3, 'd'), (4, 'e'), (5, 'f'), (6, 'g'), (7, 'h'), (8, 'i'), (9, 'j')];
    let mut heap = MyMaxHeapKeys::from_vec(rev_sorted_vec.clone());
    assert_eq!(heap.to_vec(), sorted_vec);
    let mut heap = MyMinHeapKeys::from_vec(sorted_vec);
    assert_eq!(heap.to_vec(), rev_sorted_vec);
}

// Heap sort on unordered input with repeated elements.
#[test]
fn heap_sort_with_duplicates() {
    let input = vec![5, 3, 9, 3, 1, 9, 0, -4, 7, 3];
    let mut heap = MyMaxHeap::from_vec(input.clone());
    assert_eq!(heap.to_vec(), vec![9, 9, 7, 5, 3, 3, 3, 1, 0, -4]);
    let mut heap = MyMinHeap::from_vec(input);
    assert_eq!(heap.to_vec(), vec![-4, 0, 1, 3, 3, 3, 5, 7, 9, 9]);
    assert_eq!(heap.top(), None);
}

#[test]
fn top_is_extreme_after_adds() {
    let mut heap: MyHeap<u64> = MyHeap::new(true);
    for x in [4u64, 17, 2, 17, 8] {
        heap.add(x);
    }
    assert_eq!(heap.top(), Some(&17));
    assert_eq!(heap.pop(), Some(17));
    assert_eq!(heap.pop(), Some(17));
    assert_eq!(heap.top(), Some(&8));
    let mut heap: MyHeap<u64> = MyHeap::new(false);
    for x in [4u64, 17, 2, 17, 8] {
        heap.add(x);
    }
    assert_eq!(heap.top(), Some(&2));
    assert_eq!(heap.to_vec(), vec![2, 4, 8, 17, 17]);
    assert_eq!(heap.pop(), None);
}

#[test]
fn keyed_heap_top_and_pop() {
    let mut heap: MyMaxHeapKeys<i32, &str> = MyMaxHeapKeys::new();
    assert_eq!(heap.top(), None);
    heap.add(1, "one");
    heap.add(2, "two");
    assert_eq!(heap.top(), Some((&2, &"two")));
    assert_eq!(heap.pop(), Some((2, "two")));
    assert_eq!(heap.pop(), Some((1, "one")));
    assert_eq!(heap.pop(), None);
}

// A popped value is replaced by the last one, and the entry that pointed
// at the last value keeps its old offset: a later pop of that entry reads
// whatever value sits at the old offset then.
#[test]
fn keyed_heap_pop_moves_last_value() {
    let mut heap: MyMaxHeapKeys<i32, char> = MyMaxHeapKeys::new();
    heap.add(2, 'a');
    heap.add(1, 'b');
    heap.add(0, 'c');
    assert_eq!(heap.pop(), Some((2, 'a')));
    heap.add(-1, 'd');
    heap.add(-2, 'e');
    assert_eq!(heap.pop(), Some((1, 'b')));
    assert_eq!(heap.top(), Some((&0, &'d')));
    assert_eq!(heap.pop(), Some((0, 'd')));
}

#[test]
fn min_keyed_heap_order() {
    let mut heap: MyMinHeapKeys<u32, u32> = MyMinHeapKeys::new();
    for k in [30u32, 20, 10] {
        heap.add(k, k * 100);
    }
    assert_eq!(heap.top(), Some((&10, &1000)));
    assert_eq!(heap.to_vec(), vec![(10, 1000), (20, 2000), (30, 3000)]);
}

#[test]
fn key_with_offset_orders_by_key_only() {
    let a = KeyWithOffset { key: 3i32, offset: 7 };
    let b = KeyWithOffset { key: 3i32, offset: 1 };
    let c = KeyWithOffset { key: 4i32, offset: 0 };
    assert!(a.is_below(&b) && b.is_below(&a));
    assert!(a.is_below(&c));
    assert!(!c.is_below(&a));
}

// Keys that each outrank all earlier keys come back last-added first.
#[test]
fn keyed_heaps_drain_in_reverse_when_later_keys_lead() {
    let elems: Vec<(i64, &str)> = vec![(50, "a"), (40, "b"), (-3, "c"), (-70, "d")];
    let mut heap = MyMinHeapKeys::from_vec(elems.clone());
    let mut expected = elems.clone();
    expected.reverse();
    assert_eq!(heap.to_vec(), expected);
    assert_eq!(heap.pop(), None);

    let elems: Vec<(u32, u32)> = vec![(1, 10), (5, 50), (6, 60)];
    let mut heap = MyMaxHeapKeys::from_vec(elems);
    assert_eq!(heap.top(), Some((&6, &60)));
    assert_eq!(heap.to_vec(), vec![(6, 60), (5, 50), (1, 10)]);
}

#[test]
fn key_with_offset_equality_by_key_only() {
    let a = KeyWithOffset { key: 3i32, offset: 7 };
    let b = KeyWithOffset { key: 3i32, offset: 1 };
    let c = KeyWithOffset { key: 4i32, offset: 7 };
    assert!(a == b);
    assert!(a != c);
}

// Tied keys: the heap's own tie rule decides which value of a tie leaves first.
#[test]
fn keyed_heap_tied_keys_drain() {
    let elems = vec![(0, 'a'), (1, 'b'), (1, 'c'), (2, 'd')];
    let mut heap = MyMaxHeapKeys::from_vec(elems);
    assert_eq!(heap.to_vec(), vec![(2, 'd'), (1, 'c'), (1, 'b'), (0, 'a')]);
    let mut heap = MyMinHeapKeys::from_vec(vec![(5, 'a'), (5, 'b')]);
    assert_eq!(heap.to_vec(), vec![(5, 'b'), (5, 'a')]);
}

// A min-heap swaps a child with its parent on a tie as it sifts up.
#[test]
fn min_heap_sifts_up_on_ties() {
    let mut heap: MyHeap<KeyWithOffset<i32>> = MyHeap::new(false);
    heap.add(KeyWithOffset { key: 1, offset: 0 });
    heap.add(KeyWithOffset { key: 1, offset: 1 });
    assert_eq!(heap.top().unwrap().offset, 1);
    assert_eq!(heap.as_slice()[1].offset, 0);
}
