use linked_lists::second::List;

#[test]
fn second_basics() {
    let mut list = List::new();

    // an empty list has nothing to give
    assert_eq!(list.pop(), None);

    list.push(1);
    list.push(2);
    list.push(3);

    // normal removal
    assert_eq!(list.pop(), Some(3));
    assert_eq!(list.pop(), Some(2));

    // push some more values
    list.push(4);
    list.push(5);

    // normal removal
    assert_eq!(list.pop(), Some(5));
    assert_eq!(list.pop(), Some(4));

    // exhaustion
    assert_eq!(list.pop(), Some(1));
    assert_eq!(list.pop(), None);
}

#[test]
fn second_peek() {
    let mut list = List::new();
    assert_eq!(list.peek(), None);
    assert_eq!(list.peek_mut(), None);
    list.push(3);
    list.push(2);
    list.push(1);

    assert_eq!(list.peek(), Some(&1));
    assert_eq!(list.peek_mut(), Some(&mut 1));
    list.peek_mut().map(|val| {
        *val = 8;
    });

    assert_eq!(list.peek(), Some(&8));
    assert_eq!(list.pop(), Some(8));
}

#[test]
fn second_into_iter() {
    let mut list = List::new();
    list.push(1);
    list.push(3);
    list.push(9);

    let mut iter = list.into_iter();
    assert_eq!(iter.next(), Some(9));
    assert_eq!(iter.next(), Some(3));
    assert_eq!(iter.next(), Some(1));
    assert_eq!(iter.next(), None);
}

#[test]
fn second_iter() {
    let mut list = List::new();
    list.push(3);
    list.push(1);
    list.push(10);
    list.push(100);
    list.push(2);
    list.push(20);
    list.push(200);

    let mut iter = list.iter();
    assert_eq!(iter.next(), Some(&200));
    assert_eq!(iter.next(), Some(&20));
    assert_eq!(iter.next(), Some(&2));
    let x = iter.next().unwrap();
    let y = iter.next().unwrap();
    let z = iter.next().unwrap();
    let a = iter.next();
    assert_eq!(x, &100);
    assert_eq!(y, &10);
    assert_eq!(z, &1);
    assert_eq!(a, Some(&3));
}

#[test]
fn second_iter_mut() {
    let mut list = List::new();
    list.push(3);
    list.push(1);
    list.push(4);

    let mut iter = list.iter_mut();
    assert_eq!(iter.next(), Some(&mut 4));
    assert_eq!(iter.next(), Some(&mut 1));
    assert_eq!(iter.next(), Some(&mut 3));
}

#[test]
fn stack_iter_ends_and_stays_ended() {
    let mut list = List::new();
    list.push(7);
    let mut iter = list.iter();
    assert_eq!(iter.next(), Some(&7));
    assert_eq!(iter.next(), None);
    assert_eq!(iter.next(), None);
    // the stack itself is untouched by a borrowing iterator
    assert_eq!(list.peek(), Some(&7));
}

#[test]
fn stack_iter_mut_changes_are_kept() {
    let mut list = List::new();
    list.push(1);
    list.push(2);
    list.push(3);
    {
        let mut iter = list.iter_mut();
        let a = iter.next().unwrap();
        let b = iter.next().unwrap();
        *a += 10;
        *b += 20;
        let c = iter.next().unwrap();
        *c += 30;
        assert_eq!(iter.next(), None);
    }
    assert_eq!(list.pop(), Some(13));
    assert_eq!(list.pop(), Some(22));
    assert_eq!(list.pop(), Some(31));
    assert_eq!(list.pop(), None);
}

#[test]
fn stack_is_last_in_first_out() {
    let mut list = List::new();
    for i in 0..1000u32 {
        list.push(i);
    }
    for i in (0..1000u32).rev() {
        assert_eq!(list.peek(), Some(&i));
        assert_eq!(list.pop(), Some(i));
    }
    assert_eq!(list.pop(), None);
    assert_eq!(list.pop(), None);
}

#[test]
fn stack_holds_values_that_are_not_copy() {
    let mut list = List::new();
    list.push(String::from("a"));
    list.push(String::from("b"));
    list.peek_mut().unwrap().push('!');
    assert_eq!(list.pop(), Some(String::from("b!")));
    assert_eq!(list.pop(), Some(String::from("a")));
    assert_eq!(list.pop(), None);
}

#[test]
fn long_stack_is_dropped_without_deep_nesting() {
    let mut list = List::new();
    for i in 0..1_000_000u32 {
        list.push(i);
    }
    assert_eq!(list.peek(), Some(&999_999));
    drop(list);
}

#[test]
fn stack_iterator_dropped_half_way_releases_the_rest() {
    let mut list = List::new();
    for i in 0..300_000u32 {
        list.push(i);
    }
    let mut iter = list.into_iter();
    assert_eq!(iter.next(), Some(299_999));
    drop(iter);
}
