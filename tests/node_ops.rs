use blink_store::node::{Node, Step};
use blink_store::ptr::ItemPtr;

fn ptrs(ns: &[i32]) -> Vec<ItemPtr> {
    ns.iter().map(|&n| ItemPtr::new(n)).collect()
}

fn leaf_of(order: u32, loc: i32, keys: &[u32]) -> Node {
    let mut n = Node::empty_leaf(order, ItemPtr::new(loc));
    for &k in keys {
        n.insert_record(k, ItemPtr::new(k as i32 + 1000));
    }
    n
}

#[test]
fn item_ptr_new_and_default() {
    assert_eq!(ItemPtr::new(5).page_no, 5);
    assert_eq!(ItemPtr::default().page_no, -1);
    assert!(ItemPtr::default().is_null());
    assert!(ItemPtr::new(3) < ItemPtr::new(4));
}

#[test]
fn new_takes_largest_key_as_high_key() {
    let n = Node::new(4, ItemPtr::new(1), ItemPtr::new(2), vec![3, 9, 4], ptrs(&[1, 2, 3]));
    assert_eq!(n.high_key, 9);
    assert!(n.leaf);
    assert_eq!(n.keys, vec![3, 9, 4]);
}

#[test]
fn insert_keeps_keys_sorted_and_high_key_max() {
    let n = leaf_of(8, 1, &[30, 10, 20, 5]);
    assert_eq!(n.keys, vec![5, 10, 20, 30]);
    assert_eq!(n.children, ptrs(&[1005, 1010, 1020, 1030]));
    assert_eq!(n.high_key, 30);
    assert!(n.check_shape());
}

#[test]
fn insert_of_present_key_replaces_its_record() {
    let mut n = leaf_of(8, 1, &[10, 20]);
    n.insert_record(10, ItemPtr::new(7));
    assert_eq!(n.keys, vec![10, 20]);
    assert_eq!(n.children, ptrs(&[7, 1020]));
}

#[test]
fn first_insert_into_empty_leaf_sets_high_key() {
    let mut n = Node::empty_leaf(4, ItemPtr::new(1));
    n.insert_record(42, ItemPtr::new(1));
    assert_eq!(n.high_key, 42);
}

#[test]
fn search_step_on_a_leaf() {
    let n = leaf_of(8, 1, &[10, 20, 30]);
    assert_eq!(n.search_step(20), Step::Found(ItemPtr::new(1020)));
    assert_eq!(n.search_step(25), Step::NotFound);
    // rightmost: no link, so nothing moves right
    assert_eq!(n.search_step(99), Step::NotFound);
}

#[test]
fn search_step_moves_right_above_high_key() {
    let mut n = leaf_of(8, 1, &[10, 20]);
    n.link = ItemPtr::new(2);
    assert_eq!(n.search_step(21), Step::MoveRight(ItemPtr::new(2)));
    assert_eq!(n.search_step(20), Step::Found(ItemPtr::new(1020)));
}

#[test]
fn search_step_descends_to_smallest_separator_not_below_key() {
    let mut root = Node::new_root(4, ItemPtr::new(9), ItemPtr::new(1), 20, ItemPtr::new(2));
    assert!(root.insert_separator(40, ItemPtr::new(3)));
    assert_eq!(root.keys, vec![20, 40]);
    assert_eq!(root.children, ptrs(&[1, 2, 3]));
    assert_eq!(root.search_step(5), Step::Descend(ItemPtr::new(1)));
    assert_eq!(root.search_step(20), Step::Descend(ItemPtr::new(1)));
    assert_eq!(root.search_step(21), Step::Descend(ItemPtr::new(2)));
    assert_eq!(root.search_step(40), Step::Descend(ItemPtr::new(2)));
    assert_eq!(root.search_step(41), Step::Descend(ItemPtr::new(3)));
}

#[test]
fn separator_already_present_is_refused() {
    let mut root = Node::new_root(4, ItemPtr::new(9), ItemPtr::new(1), 20, ItemPtr::new(2));
    assert!(!root.insert_separator(20, ItemPtr::new(5)));
    assert_eq!(root.children, ptrs(&[1, 2]));
}

#[test]
fn split_then_one_move_right() {
    let mut left = leaf_of(4, 1, &[10, 20, 30, 40]);
    assert!(!left.needs_split());
    left.insert_record(50, ItemPtr::new(1050));
    assert!(left.needs_split());
    let right = left.split(ItemPtr::new(2));
    assert_eq!(left.keys, vec![10, 20, 30]);
    assert_eq!(right.keys, vec![40, 50]);
    assert_eq!(left.high_key, 30);
    assert_eq!(right.high_key, 50);
    assert_eq!(left.link, ItemPtr::new(2));
    assert!(right.link.is_null());
    assert_eq!(right.loc, ItemPtr::new(2));
    assert_eq!(left.search_step(50), Step::MoveRight(right.loc));
    assert_eq!(right.search_step(50), Step::Found(ItemPtr::new(1050)));
    assert!(left.check_shape() && right.check_shape());
}

#[test]
fn split_of_internal_node_hands_on_the_straddling_child() {
    let mut n = Node::new_root(3, ItemPtr::new(9), ItemPtr::new(1), 10, ItemPtr::new(2));
    n.insert_separator(20, ItemPtr::new(3));
    n.insert_separator(30, ItemPtr::new(4));
    n.insert_separator(40, ItemPtr::new(5));
    assert!(n.needs_split());
    let right = n.split(ItemPtr::new(8));
    assert_eq!(n.keys, vec![10, 20]);
    assert_eq!(n.children, ptrs(&[1, 2, 3]));
    assert_eq!(n.high_key, 20);
    assert_eq!(right.keys, vec![30, 40]);
    assert_eq!(right.children, ptrs(&[3, 4, 5]));
    assert_eq!(right.high_key, 40);
    assert!(!right.leaf);
    assert_eq!(n.search_step(25), Step::MoveRight(ItemPtr::new(8)));
    assert_eq!(right.search_step(25), Step::Descend(ItemPtr::new(3)));
}

#[test]
fn high_key_is_max_after_every_insert_and_split() {
    let mut n = Node::empty_leaf(5, ItemPtr::new(1));
    let mut next_loc = 2;
    for k in [17u32, 3, 99, 42, 8, 64, 1, 23] {
        n.insert_record(k, ItemPtr::new(k as i32));
        assert_eq!(n.high_key, *n.keys.iter().max().unwrap());
        if n.needs_split() {
            let r = n.split(ItemPtr::new(next_loc));
            next_loc += 1;
            assert_eq!(n.high_key, *n.keys.iter().max().unwrap());
            assert_eq!(r.high_key, *r.keys.iter().max().unwrap());
            n = r;
        }
    }
}

#[test]
fn item_ptrs_order_by_page_number() {
    assert!(ItemPtr::new(-1) < ItemPtr::new(0));
    assert!(ItemPtr::new(7) > ItemPtr::new(2));
    assert!(ItemPtr::new(5) <= ItemPtr::new(5));
    assert_eq!(ItemPtr::new(3).partial_cmp(&ItemPtr::new(9)), Some(std::cmp::Ordering::Less));
    let mut v: Vec<ItemPtr> = [9, 4, -1, 6].iter().map(|&p| ItemPtr::new(p)).collect();
    v.sort();
    assert_eq!(v.iter().map(|p| p.page_no).collect::<Vec<i32>>(), vec![-1, 4, 6, 9]);
}
