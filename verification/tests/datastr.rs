use td_router::datastr::index_heap::{IndexdMinHeap, State};
use td_router::datastr::node_order::NodeOrder;
use td_router::datastr::rank_select_map::{BitVec, FastClearBitVec, RankSelectMap};
use td_router::datastr::timestamped_vector::TimestampedVector;

#[test]
fn timestamped_vector_reads_default_after_reset() {
    let mut v = TimestampedVector::new(4, 7u32);
    assert_eq!(v.len(), 4);
    assert_eq!(*v.get(2), 7);
    v.set(2, 11);
    v.set(0, 3);
    assert_eq!(*v.get(2), 11);
    assert_eq!(*v.get(0), 3);
    assert_eq!(*v.get(1), 7);
    v.reset();
    for i in 0..4 {
        assert_eq!(*v.get(i), 7);
    }
    v.set(3, 1);
    assert_eq!(*v.get(3), 1);
    assert_eq!(*v.get(2), 7);
}

#[test]
fn bit_vec_sets_single_bits() {
    let mut bits = BitVec::new(130);
    assert_eq!(bits.len(), 130);
    assert!(!bits.get(0));
    bits.set(0);
    bits.set(63);
    bits.set(64);
    bits.set(129);
    for i in 0..130 {
        assert_eq!(bits.get(i), i == 0 || i == 63 || i == 64 || i == 129);
    }
}

#[test]
fn rank_select_map_ranks_set_bits() {
    let mut bits = BitVec::new(200);
    for i in [1usize, 5, 64, 65, 127, 128, 199] {
        bits.set(i);
    }
    let map = RankSelectMap::new(bits);
    assert_eq!(map.len(), 200);
    assert_eq!(map.get(0), None);
    assert_eq!(map.get(1), Some(0));
    assert_eq!(map.get(5), Some(1));
    assert_eq!(map.get(64), Some(2));
    assert_eq!(map.get(65), Some(3));
    assert_eq!(map.get(66), None);
    assert_eq!(map.get(127), Some(4));
    assert_eq!(map.get(128), Some(5));
    assert_eq!(map.get(199), Some(6));
    assert_eq!(map.rank(0), 0);
    assert_eq!(map.rank(64), 2);
    assert_eq!(map.rank(129), 6);
    assert_eq!(map.rank(200), 7);
}

#[test]
fn fast_clear_bit_vec_clears_at_once() {
    let mut bits = FastClearBitVec::new(5);
    bits.set(1);
    bits.set(4);
    assert!(bits.get(1));
    assert!(!bits.get(2));
    assert!(bits.get(4));
    bits.clear();
    for i in 0..5 {
        assert!(!bits.get(i));
    }
    bits.set(2);
    assert!(bits.get(2));
    assert!(!bits.get(1));
}

#[test]
fn heap_pops_in_order_of_keys() {
    let mut heap = IndexdMinHeap::new(10);
    assert!(heap.is_empty());
    for (node, distance) in [(3u32, 30u32), (1, 50), (7, 10), (2, 40), (9, 20), (0, 60)] {
        heap.push(State { distance, node });
    }
    assert_eq!(heap.len(), 6);
    assert!(heap.contains_index(7));
    assert!(!heap.contains_index(8));
    assert_eq!(heap.get(2), Some(State { distance: 40, node: 2 }));
    assert_eq!(heap.get(8), None);
    assert_eq!(heap.peek(), Some(State { distance: 10, node: 7 }));
    heap.decrease_key(State { distance: 5, node: 0 });
    heap.decrease_key(State { distance: 25, node: 1 });
    let mut popped = Vec::new();
    while let Some(state) = heap.pop() {
        popped.push((state.distance, state.node));
    }
    assert_eq!(popped, vec![(5, 0), (10, 7), (20, 9), (25, 1), (30, 3), (40, 2)]);
    assert!(heap.is_empty());
    assert!(!heap.contains_index(7));
}

#[test]
fn heap_breaks_ties_by_node() {
    let mut heap = IndexdMinHeap::new(4);
    heap.push(State { distance: 8, node: 3 });
    heap.push(State { distance: 8, node: 1 });
    heap.push(State { distance: 8, node: 2 });
    assert_eq!(heap.pop(), Some(State { distance: 8, node: 1 }));
    assert_eq!(heap.pop(), Some(State { distance: 8, node: 2 }));
    assert_eq!(heap.pop(), Some(State { distance: 8, node: 3 }));
    assert_eq!(heap.pop(), None);
}

#[test]
fn heap_clear_empties() {
    let mut heap = IndexdMinHeap::new(3);
    heap.push(State { distance: 1, node: 0 });
    heap.push(State { distance: 2, node: 2 });
    heap.clear();
    assert!(heap.is_empty());
    assert!(!heap.contains_index(0));
    heap.push(State { distance: 9, node: 0 });
    assert_eq!(heap.pop(), Some(State { distance: 9, node: 0 }));
}

#[test]
fn node_order_is_inverse_of_ranks() {
    let order = NodeOrder::from_node_order(vec![2, 0, 3, 1]).unwrap();
    assert_eq!(order.len(), 4);
    assert_eq!(order.node(0), 2);
    assert_eq!(order.rank(2), 0);
    for rank in 0..4 {
        assert_eq!(order.rank(order.node(rank)), rank);
    }
}

#[test]
fn node_order_refuses_what_is_no_permutation() {
    assert!(NodeOrder::from_node_order(vec![0, 0, 1]).is_none());
    assert!(NodeOrder::from_node_order(vec![0, 3, 1]).is_none());
    assert!(NodeOrder::from_node_order(vec![]).is_some());
}
