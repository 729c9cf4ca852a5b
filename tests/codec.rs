use blink_store::codec::{DecodeError, EncodeError, HEADER_SIZE, PAGE_SIZE};
use blink_store::node::Node;
use blink_store::ptr::ItemPtr;

fn ptrs(ns: &[i32]) -> Vec<ItemPtr> {
    ns.iter().map(|&n| ItemPtr::new(n)).collect()
}

fn same(a: &Node, b: &Node) -> bool {
    a.leaf == b.leaf
        && a.order == b.order
        && a.loc == b.loc
        && a.link == b.link
        && a.high_key == b.high_key
        && a.keys == b.keys
        && a.children == b.children
}

#[test]
fn leaf_round_trips_through_bytes() {
    let n = Node::new(4, ItemPtr::new(1), ItemPtr::new(2), vec![1, 2, 3, 4], ptrs(&[3, 4, 5, 6]));
    let bytes = n.encode().unwrap();
    assert_eq!(bytes.len(), PAGE_SIZE);
    assert!(bytes[HEADER_SIZE + 4 * 8..].iter().all(|&b| b == 0));
    let back = Node::decode(&bytes).unwrap();
    assert!(same(&n, &back));
}

#[test]
fn internal_node_round_trips_through_a_page() {
    let n = Node::new_root(8, ItemPtr::new(9), ItemPtr::new(3), 77, ItemPtr::new(4));
    let page = n.into_buffer().unwrap();
    assert_eq!(page.len(), PAGE_SIZE);
    let back = Node::from_buffer(&page).unwrap();
    assert!(same(&n, &back));
    assert!(!back.leaf);
}

#[test]
fn null_link_round_trips() {
    let n = Node::empty_leaf(4, ItemPtr::new(5));
    let page = n.into_buffer().unwrap();
    let back = Node::from_buffer(&page).unwrap();
    assert!(same(&n, &back));
    assert!(back.link.is_null());
    assert_eq!(back.link.page_no, -1);
}

#[test]
fn encoding_layout_is_exact() {
    let n = Node::new(2, ItemPtr::new(1), ItemPtr::new(-1), vec![0x01020304], ptrs(&[7]));
    let page_bytes = n.encode().unwrap();
    assert_eq!(page_bytes.len(), PAGE_SIZE);
    let expected: Vec<u8> = vec![
        1, // leaf
        2, 0, 0, 0, // order
        1, 0, 0, 0, // loc
        0xff, 0xff, 0xff, 0xff, // link
        4, 3, 2, 1, // high key
        1, 0, 0, 0, // number of keys
        1, 0, 0, 0, // number of children
        4, 3, 2, 1, // key
        7, 0, 0, 0, // child
    ];
    assert_eq!(&page_bytes[..expected.len()], &expected[..]);
    assert!(page_bytes[expected.len()..].iter().all(|&b| b == 0));
    let page = n.into_buffer().unwrap();
    assert_eq!(&page[..expected.len()], &expected[..]);
    assert!(page[expected.len()..].iter().all(|&b| b == 0));
}

#[test]
fn oversized_node_is_refused() {
    let keys: Vec<u32> = (0..100).collect();
    let children = ptrs(&(0..100).collect::<Vec<i32>>());
    let n = Node::new(200, ItemPtr::new(1), ItemPtr::null(), keys, children);
    assert_eq!(n.encode().unwrap_err(), EncodeError::CapacityExceeded);
    assert_eq!(n.into_buffer().unwrap_err(), EncodeError::CapacityExceeded);
}

#[test]
fn largest_node_that_fits() {
    // 25 header bytes and 121 words make 509 bytes; one more word would not fit.
    let keys: Vec<u32> = (0..60).collect();
    let children = ptrs(&(0..61).collect::<Vec<i32>>());
    let n = Node {
        leaf: false,
        order: 60,
        loc: ItemPtr::new(1),
        link: ItemPtr::null(),
        high_key: 59,
        keys,
        children,
    };
    let page = n.into_buffer().unwrap();
    assert!(same(&n, &Node::from_buffer(&page).unwrap()));
    let mut bigger = n;
    bigger.keys.push(60);
    assert_eq!(bigger.encode().unwrap_err(), EncodeError::CapacityExceeded);
}

#[test]
fn short_input_is_malformed() {
    assert_eq!(Node::decode(&vec![1u8; 10]).unwrap_err(), DecodeError::Malformed);
    assert_eq!(Node::decode(&Vec::new()).unwrap_err(), DecodeError::Malformed);
}

#[test]
fn bad_leaf_flag_is_malformed() {
    let n = Node::empty_leaf(4, ItemPtr::new(5));
    let mut page = n.into_buffer().unwrap();
    page[0] = 7;
    assert_eq!(Node::from_buffer(&page).unwrap_err(), DecodeError::Malformed);
}

#[test]
fn counts_beyond_the_bytes_are_malformed() {
    let n = Node::new(4, ItemPtr::new(1), ItemPtr::new(2), vec![5], ptrs(&[6]));
    let mut bytes = n.encode().unwrap()[..HEADER_SIZE + 8].to_vec();
    bytes[17] = 200;
    assert_eq!(Node::decode(&bytes).unwrap_err(), DecodeError::Malformed);
    let mut page = n.into_buffer().unwrap();
    page[17] = 200;
    assert_eq!(Node::from_buffer(&page).unwrap_err(), DecodeError::Malformed);
}

#[test]
fn zero_page_decodes_as_empty_internal_node() {
    let back = Node::from_buffer(&[0u8; 512]).unwrap();
    assert!(!back.leaf);
    assert!(back.keys.is_empty() && back.children.is_empty());
    assert!(!back.check_shape());
}
