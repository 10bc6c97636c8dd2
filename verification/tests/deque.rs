use linked_lists::fourth::List;
use std::collections::VecDeque;

#[test]
fn fourth_basics() {
    let mut list = List::new();

    // an empty list has nothing to give
    assert_eq!(list.pop_front(), None);

    // fill the list
    list.push_front(1);
    list.push_front(2);
    list.push_front(3);

    // normal removal
    assert_eq!(list.pop_front(), Some(3));
    assert_eq!(list.pop_front(), Some(2));

    // push some more onto what is left
    list.push_front(4);
    list.push_front(5);

    // normal removal
    assert_eq!(list.pop_front(), Some(5));
    assert_eq!(list.pop_front(), Some(4));

    // exhaustion
    assert_eq!(list.pop_front(), Some(1));
    assert_eq!(list.pop_front(), None);

    // ---- back ----

    // an empty list has nothing to give
    assert_eq!(list.pop_back(), None);

    // fill the list
    list.push_back(4);
    list.push_back(8);
    list.push_back(12);

    // normal removal
    assert_eq!(list.pop_back(), Some(12));
    assert_eq!(list.pop_back(), Some(8));

    // exhaustion
    assert_eq!(list.pop_front(), Some(4));
    assert_eq!(list.pop_front(), None);
}

#[test]
fn fourth_peek() {
    let mut list = List::new();
    assert!(list.peek_front().is_none());
    assert!(list.peek_back().is_none());
    assert!(list.peek_front_mut().is_none());
    assert!(list.peek_back_mut().is_none());

    list.push_front(10);
    list.push_front(20);
    list.push_front(30);

    assert_eq!(&*list.peek_front().unwrap(), &30);
    assert_eq!(&mut *list.peek_front_mut().unwrap(), &mut 30);
    assert_eq!(&*list.peek_back().unwrap(), &10);
    assert_eq!(&mut *list.peek_back_mut().unwrap(), &mut 10);
}

#[test]
fn fourth_into_iter() {
    let mut list = List::new();
    list.push_front(1);
    list.push_front(2);
    list.push_front(3);

    let mut iter = list.into_iter();
    assert_eq!(iter.next(), Some(3));
    assert_eq!(iter.next_back(), Some(1));
    assert_eq!(iter.next(), Some(2));
    assert_eq!(iter.next_back(), None);
    assert_eq!(iter.next(), None);
}

#[test]
fn pushed_at_front_comes_out_at_back_in_order() {
    let mut list = List::new();
    list.push_front(1);
    list.push_front(2);
    list.push_front(3);
    assert_eq!(list.pop_back(), Some(1));
    assert_eq!(list.pop_back(), Some(2));
    assert_eq!(list.pop_back(), Some(3));
    assert_eq!(list.pop_back(), None);

    list.push_front(1);
    list.push_front(2);
    list.push_front(3);
    assert_eq!(list.pop_front(), Some(3));
    assert_eq!(list.pop_front(), Some(2));
    assert_eq!(list.pop_front(), Some(1));
    assert_eq!(list.pop_front(), None);
}

#[test]
fn pushed_at_back_comes_out_at_front_in_order() {
    let mut list = List::new();
    for i in 0..100u32 {
        list.push_back(i);
    }
    for i in 0..100u32 {
        assert_eq!(list.pop_front(), Some(i));
    }
    assert_eq!(list.pop_front(), None);
    for i in 0..100u32 {
        list.push_back(i);
    }
    for i in (0..100u32).rev() {
        assert_eq!(list.pop_back(), Some(i));
    }
    assert_eq!(list.pop_back(), None);
}

#[test]
fn pushes_interleaved_with_pops_at_front() {
    let mut list = List::new();
    list.push_front(1);
    list.push_front(2);
    list.push_front(3);
    assert_eq!(list.pop_front(), Some(3));
    assert_eq!(list.pop_front(), Some(2));
    list.push_front(4);
    list.push_front(5);
    assert_eq!(list.pop_front(), Some(5));
    assert_eq!(list.pop_front(), Some(4));
    assert_eq!(list.pop_front(), Some(1));
    assert_eq!(list.pop_front(), None);
}

#[test]
fn drained_from_both_ends() {
    let mut list = List::new();
    list.push_back(4);
    list.push_back(8);
    list.push_back(12);
    assert_eq!(list.pop_back(), Some(12));
    assert_eq!(list.pop_back(), Some(8));
    assert_eq!(list.pop_front(), Some(4));
    assert_eq!(list.pop_front(), None);
}

#[test]
fn front_changed_in_place_is_popped_changed() {
    let mut list = List::new();
    list.push_front(10);
    list.push_front(20);
    list.push_front(30);
    assert_eq!(list.peek_front(), Some(&30));
    *list.peek_front_mut().unwrap() = 99;
    assert_eq!(list.peek_front(), Some(&99));
    assert_eq!(list.peek_back(), Some(&10));
    assert_eq!(list.pop_front(), Some(99));
    assert_eq!(list.pop_front(), Some(20));
    assert_eq!(list.pop_front(), Some(10));
}

#[test]
fn back_changed_in_place_is_popped_changed() {
    let mut list = List::new();
    list.push_back(1);
    list.push_back(2);
    *list.peek_back_mut().unwrap() = 7;
    assert_eq!(list.peek_front(), Some(&1));
    assert_eq!(list.pop_back(), Some(7));
    assert_eq!(list.pop_back(), Some(1));
    assert_eq!(list.pop_back(), None);
}

#[test]
fn single_element_is_both_front_and_back() {
    let mut list = List::new();
    list.push_front(5);
    assert_eq!(list.peek_front(), Some(&5));
    assert_eq!(list.peek_back(), Some(&5));
    *list.peek_back_mut().unwrap() = 6;
    assert_eq!(list.peek_front(), Some(&6));
    assert_eq!(list.pop_back(), Some(6));
    assert!(list.peek_front().is_none());
    assert!(list.peek_back().is_none());

    list.push_back(8);
    assert_eq!(list.peek_front(), Some(&8));
    assert_eq!(list.pop_front(), Some(8));
    assert!(list.peek_back().is_none());
}

#[test]
fn empty_deque_stays_empty_under_pops() {
    let mut list: List<u8> = List::new();
    for _ in 0..5 {
        assert_eq!(list.pop_front(), None);
        assert_eq!(list.pop_back(), None);
    }
    list.push_back(1);
    assert_eq!(list.pop_front(), Some(1));
    for _ in 0..5 {
        assert_eq!(list.pop_back(), None);
        assert_eq!(list.pop_front(), None);
    }
}

#[test]
fn iterator_yields_each_element_once_then_nothing() {
    let mut list = List::new();
    for i in 0..7u32 {
        list.push_back(i);
    }
    let mut iter = list.into_iter();
    let mut seen = Vec::new();
    let mut from_front = true;
    loop {
        let got = if from_front { iter.next() } else { iter.next_back() };
        match got {
            Some(v) => seen.push(v),
            None => break,
        }
        from_front = !from_front;
    }
    assert_eq!(seen, vec![0, 6, 1, 5, 2, 4, 3]);
    for _ in 0..3 {
        assert_eq!(iter.next(), None);
        assert_eq!(iter.next_back(), None);
    }
}

#[test]
fn iterator_over_empty_deque_yields_nothing() {
    let list: List<i64> = List::new();
    let mut iter = list.into_iter();
    assert_eq!(iter.next_back(), None);
    assert_eq!(iter.next(), None);
}

#[test]
fn mixed_operations_agree_with_a_reference_deque() {
    let mut list = List::new();
    let mut model: VecDeque<u64> = VecDeque::new();
    let mut state: u64 = 0x2545_f491_4f6c_dd1d;
    for step in 0..5000u64 {
        state ^= state << 13;
        state ^= state >> 7;
        state ^= state << 17;
        match state % 6 {
            0 | 1 => {
                list.push_front(step);
                model.push_front(step);
            }
            2 | 3 => {
                list.push_back(step);
                model.push_back(step);
            }
            4 => assert_eq!(list.pop_front(), model.pop_front()),
            _ => assert_eq!(list.pop_back(), model.pop_back()),
        }
        assert_eq!(list.peek_front(), model.front());
        assert_eq!(list.peek_back(), model.back());
    }
    let mut left = 0;
    while let Some(v) = list.pop_front() {
        assert_eq!(Some(v), model.pop_front());
        left += 1;
    }
    assert!(model.is_empty());
    assert!(left > 0);
    assert_eq!(list.pop_back(), None);
}

#[test]
fn deque_holds_values_that_are_not_copy() {
    let mut list = List::new();
    list.push_back(String::from("b"));
    list.push_front(String::from("a"));
    list.push_back(String::from("c"));
    list.peek_front_mut().unwrap().push('!');
    assert_eq!(list.pop_front(), Some(String::from("a!")));
    assert_eq!(list.pop_back(), Some(String::from("c")));
    assert_eq!(list.pop_back(), Some(String::from("b")));
    assert_eq!(list.pop_back(), None);
}

#[test]
fn long_deque_is_dropped_with_elements_left() {
    let mut list = List::new();
    for i in 0..500_000u32 {
        list.push_back(i);
        list.push_front(i);
    }
    assert_eq!(list.pop_back(), Some(499_999));
    assert_eq!(list.pop_front(), Some(499_999));
    drop(list);
}

#[test]
fn slots_are_reused_after_removal() {
    let mut list = List::new();
    for round in 0..1000u32 {
        list.push_back(round);
        list.push_back(round + 1);
        assert_eq!(list.pop_front(), Some(round));
        assert_eq!(list.pop_front(), Some(round + 1));
        assert_eq!(list.pop_front(), None);
    }
    list.push_front(1);
    list.push_back(2);
    assert_eq!(list.peek_front(), Some(&1));
    assert_eq!(list.peek_back(), Some(&2));
}
