use linked_bst::list::linkedlist1::List;

#[test]
fn basics() {
    let mut l: List<i32> = List::new();
    assert_eq!(l.front(), None);
    assert_eq!(l.front_mut(), None);

    l.push_front(1);
    l.push_front(2);
    l.push_front(3);

    assert_eq!(l.front(), Some(&3));
    assert_eq!(l.front_mut(), Some(&mut 3));

    l.pop_front();
    assert_eq!(l.front(), Some(&2));
    assert_eq!(l.front_mut(), Some(&mut 2));

    l.push_front(4);
    l.push_front(5);

    if let Some(v) = l.front_mut() {
        *v = *v * 2;
    }
    assert_eq!(l.front(), Some(&10));
    l.pop_front();

    l.front_mut().map(|v| {
        *v = *v * 2;
    });

    assert_eq!(l.front(), Some(&8));
    l.pop_front();

    assert_eq!(l.front(), Some(&2));

    let f1 = l.front_mut();
    f1.map(|v| {
        *v = *v * 2;
    });

    assert_eq!(l.front(), Some(&4));

    l.pop_front();
    assert_eq!(l.front(), Some(&1));
    l.pop_front();
    assert_eq!(l.front(), None);
    l.pop_front();
    assert_eq!(l.front(), None);
    assert_eq!(l.front_mut(), None);
}

#[test]
fn test_into_itr() {
    let mut l: List<i32> = List::new();
    assert_eq!(l.front(), None);
    assert_eq!(l.front_mut(), None);

    l.push_front(1);
    l.push_front(2);
    l.push_front(3);

    let mut itr = l.into_iter();
    assert_eq!(Some(3), itr.next());
    assert_eq!(Some(2), itr.next());
    assert_eq!(Some(1), itr.next());
    assert_eq!(None, itr.next());
}

#[test]
fn test_itr() {
    let mut l: List<i32> = List::new();
    assert_eq!(l.front(), None);
    assert_eq!(l.front_mut(), None);

    l.push_front(1);
    l.push_front(2);
    l.push_front(3);

    let mut itr = l.itr();
    assert_eq!(Some(&3), itr.next());
    assert_eq!(Some(&2), itr.next());
    assert_eq!(Some(&1), itr.next());
    assert_eq!(None, itr.next());

    let mut itr1 = l.itr();
    assert_eq!(Some(&3), itr1.next());
    assert_eq!(Some(&2), itr1.next());
    assert_eq!(Some(&1), itr1.next());
    assert_eq!(None, itr1.next());
}

#[test]
fn test_mut_itr() {
    let mut l: List<i32> = List::new();
    assert_eq!(l.front(), None);
    assert_eq!(l.front_mut(), None);

    l.push_front(1);
    l.push_front(2);
    l.push_front(3);

    let mut mut_itr = l.mut_itr();
    assert_eq!(Some(&mut 3), mut_itr.next());
    assert_eq!(Some(&mut 2), mut_itr.next());
    assert_eq!(Some(&mut 1), mut_itr.next());
    assert_eq!(None, mut_itr.next());

    let mut mut_itr1 = l.mut_itr();
    mut_itr1.next().map(|v| *v = *v * 2);
    mut_itr1.next().map(|v| *v = *v * 2);
    mut_itr1.next().map(|v| *v = *v * 2);
    mut_itr1.next().map(|v| *v = *v * 2);
    mut_itr1.next().map(|v| *v = *v * 2);

    let mut mut_itr2 = l.mut_itr();
    assert_eq!(Some(&mut 6), mut_itr2.next());
    assert_eq!(Some(&mut 4), mut_itr2.next());
    assert_eq!(Some(&mut 2), mut_itr2.next());
    assert_eq!(None, mut_itr2.next());
}

#[test]
fn test_drop_move() {
    let l: List<i32> = List::new();

    // A list can be moved as a unit.
    let _l = l;

    // A list can be changed in place.
    let mut l2: List<i32> = List::new();
    assert_eq!(l2.pop_front(), None);
}

#[test]
fn pop_front_returns_values_front_to_back() {
    let mut l: List<i32> = List::new();
    assert_eq!(l.pop_front(), None);
    l.push_front(7);
    l.push_front(8);
    assert_eq!(l.pop_front(), Some(8));
    assert_eq!(l.pop_front(), Some(7));
    assert_eq!(l.pop_front(), None);
}

#[test]
fn into_itr_of_empty_list_is_empty() {
    let l: List<String> = List::new();
    let mut itr = l.into_iter();
    assert_eq!(itr.next(), None);
    assert_eq!(itr.next(), None);
}

#[test]
fn dropping_a_long_list_does_not_recurse() {
    let mut l: List<u32> = List::new();
    let mut i: u32 = 0;
    while i < 100_000 {
        l.push_front(i);
        i += 1;
    }
    assert_eq!(l.front(), Some(&99_999));
    drop(l);
}
