use std::collections::VecDeque;

use dll::LinkedList;
use dll::ListNode;

#[test]
fn node_construction() {
    let node: ListNode<u32> = ListNode::from(42);
    assert_eq!(node.data, 42);
    assert!(node.next.is_none());
    assert!(node.prev.is_none());

    let two: ListNode<u32> = ListNode::new(2, Some(3), None);
    assert_eq!(two.data, 2);
    assert_eq!(two.next, Some(3));
    assert!(two.prev.is_none());
}

#[test]
fn length_tracks_pushes_and_pops() {
    let mut list: LinkedList<u32> = LinkedList::new();
    assert!(list.is_empty());
    let mut pushes: usize = 0;
    let mut pops: usize = 0;

    for i in 0..10 {
        if i % 2 == 0 {
            list.push_front(i);
        } else {
            list.push_back(i);
        }
        pushes += 1;
        assert_eq!(list.len(), pushes - pops);
    }
    for _ in 0..4 {
        assert!(list.pop_front().is_some());
        pops += 1;
        assert_eq!(list.len(), pushes - pops);
    }
    for _ in 0..6 {
        assert!(list.pop_back().is_some());
        pops += 1;
        assert_eq!(list.len(), pushes - pops);
    }
    // Pops on the empty list fail and change nothing.
    assert_eq!(list.pop_front(), None);
    assert_eq!(list.pop_back(), None);
    assert_eq!(list.len(), 0);
    assert!(list.is_empty());
}

#[test]
fn lifo_front_order() {
    let mut list: LinkedList<u32> = LinkedList::new();
    for v in [10, 20, 30, 40, 50] {
        list.push_front(v);
    }
    for expected in [50, 40, 30, 20, 10] {
        assert_eq!(list.pop_front(), Some(expected));
    }
    assert_eq!(list.pop_front(), None);
}

#[test]
fn fifo_back_to_front_order() {
    let mut list: LinkedList<u32> = LinkedList::new();
    for v in [10, 20, 30, 40, 50] {
        list.push_back(v);
    }
    for expected in [10, 20, 30, 40, 50] {
        assert_eq!(list.pop_front(), Some(expected));
    }
    assert_eq!(list.pop_front(), None);
}

#[test]
fn single_element_round_trip() {
    let mut list: LinkedList<u32> = LinkedList::new();
    list.push_front(7);
    assert_eq!(list.pop_back(), Some(7));
    assert_eq!(list.pop_back(), None);
    assert_eq!(list.pop_front(), None);
}

#[test]
fn get_by_index() {
    let mut list: LinkedList<u32> = LinkedList::new();
    assert_eq!(list.get(0), None);
    list.push_back(1);
    list.push_back(2);
    list.push_back(3);
    assert_eq!(list.get(0), Some(1));
    assert_eq!(list.get(1), Some(2));
    assert_eq!(list.get(2), Some(3));
    assert_eq!(list.get(3), None);
    assert_eq!(list.len(), 3);
}

#[test]
fn retain_keeps_relative_order() {
    let mut list: LinkedList<u32> = LinkedList::new();
    for i in 0..10 {
        list.push_back(i);
    }
    list.retain(|x| x % 2 == 1);
    assert_eq!(list.len(), 5);
    let mut iter = list.iter();
    for expected in [1, 3, 5, 7, 9] {
        assert_eq!(iter.next(), Some(expected));
    }
    assert_eq!(iter.next(), None);
}

#[test]
fn retain_all_and_none() {
    let mut list: LinkedList<u32> = LinkedList::new();
    for i in 0..5 {
        list.push_back(i);
    }
    list.retain(|_| true);
    assert_eq!(list.len(), 5);
    list.retain(|_| false);
    assert_eq!(list.len(), 0);
    assert_eq!(list.pop_front(), None);
    // The emptied list is still fully usable.
    list.push_back(9);
    assert_eq!(list.pop_back(), Some(9));
}

#[test]
fn retain_removes_endpoints() {
    let mut list: LinkedList<u32> = LinkedList::new();
    for v in [4, 1, 6, 2, 8] {
        list.push_back(v);
    }
    // Rejects the head (4), the tail (8), and a middle element (6).
    list.retain(|x| x % 2 == 1 || *x == 2);
    assert_eq!(list.len(), 2);
    assert_eq!(list.pop_front(), Some(1));
    assert_eq!(list.pop_front(), Some(2));
    assert_eq!(list.pop_front(), None);
}

#[test]
fn clear_resets_everything() {
    let mut list: LinkedList<u32> = LinkedList::new();
    list.push_back(1);
    list.push_back(2);
    list.push_back(3);
    assert_eq!(list.len(), 3);
    list.clear();
    assert_eq!(list.len(), 0);
    assert_eq!(list.pop_front(), None);
    assert_eq!(list.pop_back(), None);
    assert!(list.head_index().is_none());
    assert!(list.tail_index().is_none());
}

#[test]
fn iteration_leaves_list_unchanged() {
    let mut list: LinkedList<u32> = LinkedList::new();
    for v in [1, 2, 3, 4, 5] {
        list.push_back(v);
    }
    let mut seen = Vec::new();
    let mut iter = list.iter();
    while let Some(v) = iter.next() {
        seen.push(v);
    }
    assert_eq!(seen, vec![1, 2, 3, 4, 5]);
    assert_eq!(iter.next(), None);
    assert_eq!(list.len(), 5);
    assert_eq!(list.get(0), Some(1));
    assert_eq!(list.get(4), Some(5));
}

#[test]
fn mutable_cursor_updates_each_element_once() {
    let mut list: LinkedList<u32> = LinkedList::new();
    list.push_back(0);
    list.push_back(1);
    list.push_back(2);

    let mut cursor = list.iter_mut();
    while cursor.has_next(&list) {
        let v = cursor.peek(&list);
        cursor.replace(&mut list, v + 10);
    }

    let mut iter = list.iter();
    assert_eq!(iter.next(), Some(10));
    assert_eq!(iter.next(), Some(11));
    assert_eq!(iter.next(), Some(12));
    assert_eq!(iter.next(), None);
}

#[test]
fn mutable_cursor_can_skip() {
    let mut list: LinkedList<u32> = LinkedList::new();
    for v in [1, 2, 3, 4] {
        list.push_back(v);
    }
    let mut cursor = list.iter_mut();
    cursor.advance(&list);
    let old = cursor.replace(&mut list, 20);
    assert_eq!(old, 2);
    cursor.advance(&list);
    let old = cursor.replace(&mut list, 40);
    assert_eq!(old, 4);
    assert!(!cursor.has_next(&list));

    let mut iter = list.iter();
    assert_eq!(iter.next(), Some(1));
    assert_eq!(iter.next(), Some(20));
    assert_eq!(iter.next(), Some(3));
    assert_eq!(iter.next(), Some(40));
    assert_eq!(iter.next(), None);
}

#[test]
fn sort_ascending_and_descending() {
    let mut list: LinkedList<u32> = LinkedList::new();
    list.push_back(1);
    list.push_back(3);
    list.push_back(2);
    list.sort(|a, b| a.cmp(b));
    assert_eq!(list.to_text(), "1 -> 2 -> 3");

    list.sort(|a, b| b.cmp(a));
    assert_eq!(list.to_text(), "3 -> 2 -> 1");
}

#[test]
fn sort_keeps_every_element() {
    let mut list: LinkedList<u32> = LinkedList::new();
    for v in [5, 1, 4, 1, 5, 9, 2, 6, 5, 3] {
        list.push_back(v);
    }
    list.sort(|a, b| a.cmp(b));
    assert_eq!(list.len(), 10);
    let mut seen = Vec::new();
    let mut iter = list.iter();
    while let Some(v) = iter.next() {
        seen.push(v);
    }
    assert_eq!(seen, vec![1, 1, 2, 3, 4, 5, 5, 5, 6, 9]);
}

#[test]
fn sort_is_stable_for_ties() {
    let mut list: LinkedList<(u32, u32)> = LinkedList::new();
    // Keys repeat; the second component records insertion order.
    for (key, stamp) in [(2, 0), (1, 1), (2, 2), (1, 3), (2, 4)] {
        list.push_back((key, stamp));
    }
    list.sort(|a, b| a.0.cmp(&b.0));
    let mut seen = Vec::new();
    let mut iter = list.iter();
    while let Some(v) = iter.next() {
        seen.push(v);
    }
    assert_eq!(seen, vec![(1, 1), (1, 3), (2, 0), (2, 2), (2, 4)]);
}

#[test]
fn sort_empty_and_single() {
    let mut list: LinkedList<u32> = LinkedList::new();
    list.sort(|a, b| a.cmp(b));
    assert_eq!(list.len(), 0);
    list.push_back(8);
    list.sort(|a, b| a.cmp(b));
    assert_eq!(list.len(), 1);
    assert_eq!(list.get(0), Some(8));
}

#[test]
fn inconsistent_comparator_terminates() {
    let mut list: LinkedList<u32> = LinkedList::new();
    for v in [3, 1, 2] {
        list.push_back(v);
    }
    // Always answering `Greater` decides no order; the call must still
    // terminate and keep every element.
    list.sort(|_, _| std::cmp::Ordering::Greater);
    assert_eq!(list.len(), 3);
    let mut seen = Vec::new();
    let mut iter = list.iter();
    while let Some(v) = iter.next() {
        seen.push(v);
    }
    seen.sort();
    assert_eq!(seen, vec![1, 2, 3]);
}

#[test]
fn text_rendering_digits() {
    let mut list: LinkedList<u32> = LinkedList::new();
    assert_eq!(list.to_text(), "");
    list.push_back(0);
    assert_eq!(list.to_text(), "0");
    list.push_back(10);
    list.push_back(105);
    list.push_back(4294967295);
    assert_eq!(list.to_text(), "0 -> 10 -> 105 -> 4294967295");
}

#[test]
fn mixed_operations_match_a_model() {
    // A small linear-congruential generator drives a random-looking run of
    // operations; a double-ended queue plays the reference model.
    let mut seed: u64 = 0x2545F4914F6CDD1D;
    let mut next = move || {
        seed = seed.wrapping_mul(6364136223846793005).wrapping_add(1442695040888963407);
        (seed >> 33) as u32
    };

    let mut list: LinkedList<u32> = LinkedList::new();
    let mut model: VecDeque<u32> = VecDeque::new();

    for _ in 0..2000 {
        let r = next();
        match r % 8 {
            0 | 1 => {
                list.push_front(r);
                model.push_front(r);
            }
            2 | 3 => {
                list.push_back(r);
                model.push_back(r);
            }
            4 => {
                assert_eq!(list.pop_front(), model.pop_front());
            }
            5 => {
                assert_eq!(list.pop_back(), model.pop_back());
            }
            6 => {
                let idx = (r as usize / 8) % (model.len() + 1);
                assert_eq!(list.get(idx), model.get(idx).copied());
            }
            _ => {
                let bit = r % 2;
                list.retain(|x| x % 2 == bit);
                model.retain(|x| x % 2 == bit);
            }
        }
        assert_eq!(list.len(), model.len());
        if let Some(&front) = model.front() {
            assert_eq!(list.get(0), Some(front));
        } else {
            assert!(list.is_empty());
        }
    }

    while let Some(expected) = model.pop_front() {
        assert_eq!(list.pop_front(), Some(expected));
    }
    assert_eq!(list.pop_front(), None);
}
