use linked_bst::tree::bst1::BSTree;
use std::cell::RefCell;

#[test]
pub fn test_preorder() {
    let mut bst: BSTree<i32> = BSTree::new();
    let insert_order = vec![8, 4, 10, 6, 5, 7, 9, 12, 13];
    for val in insert_order.iter() {
        bst.insert(*val);
    }

    println!("preorder_recursive");
    bst.preorder_recursive(|v: &i32| {
        println!("{} ", v);
    });
    println!();

    println!("preorder");
    bst.preorder(|v: &i32| {
        println!("{} ", v);
    });
    println!();

    let mut pre_itr = bst.get_preorder_itr();

    println!("preorder_itr");
    while let Some(v) = pre_itr.next() {
        println!("{} ", v);
    }
    println!();

    let pre_itr2 = bst.get_preorder_itr();
    let c: Vec<&i32> = pre_itr2.collect();
    println!("{:?}", c);
    let expect: Vec<&i32> = vec![&8, &4, &6, &5, &7, &10, &9, &12, &13];
    assert_eq!(c, expect);
}

#[test]
pub fn test_inorder() {
    let mut bst: BSTree<String> = BSTree::new();
    let insert_order = vec!["f", "h", "d", "e", "a", "b", "c", "g", "i"];
    for val in insert_order.iter() {
        bst.insert(String::from(*val));
    }

    println!("inorder");
    bst.inorder(|v| {
        println!("{} ", v);
    });
    println!();

    println!("inorder_recursive");
    bst.inorder_recursive(|v| {
        println!("{} ", v);
    });
    println!();

    println!("inorder_itr");
    let mut in_itr = bst.get_inorder_itr();
    while let Some(v) = in_itr.next() {
        println!("{}", v);
    }
    println!();

    let in_itr2 = bst.get_inorder_itr();
    let c: Vec<&String> = in_itr2.collect();
    println!("{:?}", c);

    let ra = &String::from("a");
    let rb = &String::from("b");
    let rc = &String::from("c");
    let rd = &String::from("d");
    let re = &String::from("e");
    let rf = &String::from("f");
    let rg = &String::from("g");
    let rh = &String::from("h");
    let ri = &String::from("i");
    let expect = vec![ra, rb, rc, rd, re, rf, rg, rh, ri];
    assert_eq!(c, expect);
}

fn build(values: &[i64]) -> BSTree<i64> {
    let mut bst: BSTree<i64> = BSTree::new();
    for v in values {
        bst.insert(*v);
    }
    bst
}

/// The three preorder forms, each collected into a vector.
fn preorders(bst: &BSTree<i64>) -> (Vec<i64>, Vec<i64>, Vec<i64>) {
    let rec = RefCell::new(Vec::new());
    bst.preorder_recursive(|v: &i64| rec.borrow_mut().push(*v));
    let eager = RefCell::new(Vec::new());
    bst.preorder(|v: &i64| eager.borrow_mut().push(*v));
    let lazy: Vec<i64> = bst.get_preorder_itr().collect().into_iter().copied().collect();
    (rec.into_inner(), eager.into_inner(), lazy)
}

/// The three inorder forms, each collected into a vector.
fn inorders(bst: &BSTree<i64>) -> (Vec<i64>, Vec<i64>, Vec<i64>) {
    let rec = RefCell::new(Vec::new());
    bst.inorder_recursive(|v: &i64| rec.borrow_mut().push(*v));
    let eager = RefCell::new(Vec::new());
    bst.inorder(|v: &i64| eager.borrow_mut().push(*v));
    let lazy: Vec<i64> = bst.get_inorder_itr().collect().into_iter().copied().collect();
    (rec.into_inner(), eager.into_inner(), lazy)
}

#[test]
fn all_preorder_forms_agree_on_the_example() {
    let bst = build(&[8, 4, 10, 6, 5, 7, 9, 12, 13]);
    let (rec, eager, lazy) = preorders(&bst);
    let expect = vec![8, 4, 6, 5, 7, 10, 9, 12, 13];
    assert_eq!(rec, expect);
    assert_eq!(eager, expect);
    assert_eq!(lazy, expect);
}

#[test]
fn all_inorder_forms_sort_the_letters() {
    let mut bst: BSTree<String> = BSTree::new();
    for s in ["f", "h", "d", "e", "a", "b", "c", "g", "i"] {
        bst.insert(String::from(s));
    }
    let rec = RefCell::new(Vec::new());
    bst.inorder_recursive(|v: &String| rec.borrow_mut().push(v.clone()));
    let eager = RefCell::new(Vec::new());
    bst.inorder(|v: &String| eager.borrow_mut().push(v.clone()));
    let lazy: Vec<String> = bst.get_inorder_itr().collect().into_iter().cloned().collect();
    let expect: Vec<String> =
        ["a", "b", "c", "d", "e", "f", "g", "h", "i"].iter().map(|s| s.to_string()).collect();
    assert_eq!(rec.into_inner(), expect);
    assert_eq!(eager.into_inner(), expect);
    assert_eq!(lazy, expect);
}

#[test]
fn equal_values_build_a_left_chain() {
    let bst = build(&[5, 5, 5]);
    assert_eq!(bst.height(), 3);
    let (rec, eager, lazy) = preorders(&bst);
    assert_eq!(eager, vec![5, 5, 5]);
    assert_eq!(rec, vec![5, 5, 5]);
    assert_eq!(lazy, vec![5, 5, 5]);
}

#[test]
fn height_of_small_trees() {
    let empty: BSTree<i64> = BSTree::new();
    assert_eq!(empty.height(), 0);
    assert_eq!(build(&[1]).height(), 1);
    assert_eq!(build(&[8, 4, 10, 6, 5, 7, 9, 12, 13]).height(), 4);
    assert_eq!(build(&[1, 2, 3, 4]).height(), 4);
}

#[test]
fn traversals_of_an_empty_tree_are_empty() {
    let bst: BSTree<i64> = BSTree::new();
    let (a, b, c) = preorders(&bst);
    assert!(a.is_empty() && b.is_empty() && c.is_empty());
    let (a, b, c) = inorders(&bst);
    assert!(a.is_empty() && b.is_empty() && c.is_empty());
    let mut itr = bst.get_inorder_itr();
    assert_eq!(itr.next(), None);
    assert_eq!(itr.next(), None);
}

#[test]
fn cursors_are_not_restartable_but_fresh_ones_start_over() {
    let bst = build(&[2, 1, 3]);
    let mut itr = bst.get_preorder_itr();
    assert_eq!(itr.next(), Some(&2));
    let mut fresh = bst.get_preorder_itr();
    assert_eq!(itr.next(), Some(&1));
    assert_eq!(itr.next(), Some(&3));
    assert_eq!(itr.next(), None);
    assert_eq!(fresh.next(), Some(&2));
    let mut ino = bst.get_inorder_itr();
    assert_eq!(ino.next(), Some(&1));
    assert_eq!(ino.next(), Some(&2));
    assert_eq!(ino.next(), Some(&3));
    assert_eq!(ino.next(), None);
}

#[test]
fn traversal_forms_agree_on_pseudo_random_trees() {
    let mut seed: u64 = 0x2545_f491_4f6c_dd1d;
    let mut size: usize = 0;
    while size < 200 {
        let mut values = Vec::new();
        let mut i = 0;
        while i < size {
            seed = seed.wrapping_mul(6364136223846793005).wrapping_add(1442695040888963407);
            values.push(((seed >> 33) % 50) as i64 - 25);
            i += 1;
        }
        let bst = build(&values);
        let (rec, eager, lazy) = preorders(&bst);
        assert_eq!(rec.len(), size);
        assert_eq!(rec, eager);
        assert_eq!(rec, lazy);
        let (rec, eager, lazy) = inorders(&bst);
        assert_eq!(rec, eager);
        assert_eq!(rec, lazy);
        let mut sorted = values.clone();
        sorted.sort();
        assert_eq!(rec, sorted);
        size += 7;
    }
}

#[test]
fn deep_tree_is_walked_and_dropped_without_recursion() {
    let mut bst: BSTree<u32> = BSTree::new();
    let n: u32 = 20_000;
    let mut i: u32 = 0;
    while i < n {
        bst.insert(i);
        i += 1;
    }
    assert_eq!(bst.height(), n as usize);
    let count = RefCell::new(0u32);
    bst.preorder(|_v: &u32| *count.borrow_mut() += 1);
    bst.inorder(|_v: &u32| *count.borrow_mut() += 1);
    assert_eq!(*count.borrow(), 2 * n);
    let mut itr = bst.get_inorder_itr();
    assert_eq!(itr.next(), Some(&0));
    let last = bst.get_preorder_itr().collect().pop();
    assert_eq!(last, Some(&(n - 1)));
    drop(bst);
}
