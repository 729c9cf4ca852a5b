use blink_store::btree::BTree;
use blink_store::buffer_pool::{BufferPool, PagedFile, StoreError};
use blink_store::node::Step;
use blink_store::ptr::ItemPtr;

struct Disk {
    pages: Vec<[u8; 512]>,
}

impl PagedFile for Disk {
    fn read_page(&mut self, page_no: i32) -> Result<[u8; 512], StoreError> {
        self.pages.get(page_no as usize).copied().ok_or(StoreError::NotFound)
    }

    fn write_page(&mut self, page_no: i32, page: &[u8; 512]) -> Result<(), StoreError> {
        let p = page_no as usize;
        while self.pages.len() <= p {
            self.pages.push([0u8; 512]);
        }
        self.pages[p] = *page;
        Ok(())
    }
}

fn setup(frames: usize, order: u32) -> (BTree, BufferPool, Disk) {
    let mut disk = Disk { pages: vec![[0u8; 512]] };
    let mut pool = BufferPool::new(frames, 1);
    let tree = BTree::create(&mut pool, &mut disk, order).unwrap();
    (tree, pool, disk)
}

#[test]
fn empty_tree_finds_nothing() {
    let (tree, mut pool, mut disk) = setup(4, 4);
    assert_eq!(tree.root.page_no, 1);
    assert_eq!(tree.search(&mut pool, &mut disk, 10), Ok(None));
    assert_eq!(tree.keys(&mut pool, &mut disk), Ok(vec![]));
}

#[test]
fn leaf_split_reached_by_one_move_right() {
    let (mut tree, mut pool, mut disk) = setup(8, 4);
    let leaf_page = tree.root.page_no;
    for k in [10u32, 20, 30, 40] {
        tree.insert(&mut pool, &mut disk, k, ItemPtr::new(k as i32)).unwrap();
    }
    assert_eq!(tree.root.page_no, leaf_page);
    tree.insert(&mut pool, &mut disk, 50, ItemPtr::new(50)).unwrap();
    assert_ne!(tree.root.page_no, leaf_page);
    // start at the leaf that split: one hop right reaches 50
    let i = pool.fetch(&mut disk, leaf_page).unwrap();
    let left = pool.read_node(i).unwrap();
    pool.unpin(leaf_page, false).unwrap();
    let right_loc = match left.search_step(50) {
        Step::MoveRight(p) => p,
        other => panic!("expected a move right, got {:?}", other),
    };
    let j = pool.fetch(&mut disk, right_loc.page_no).unwrap();
    let right = pool.read_node(j).unwrap();
    pool.unpin(right_loc.page_no, false).unwrap();
    assert_eq!(right.search_step(50), Step::Found(ItemPtr::new(50)));
    assert_eq!(tree.search(&mut pool, &mut disk, 50), Ok(Some(ItemPtr::new(50))));
    assert_eq!(tree.keys(&mut pool, &mut disk), Ok(vec![10, 20, 30, 40, 50]));
}

#[test]
fn hundred_inserts_and_searches() {
    let (mut tree, mut pool, mut disk) = setup(6, 4);
    let mut inserted: Vec<u32> = Vec::new();
    let mut x: u32 = 7;
    for _ in 0..100 {
        // distinct keys in scrambled order: 2 generates all of 1..=100 modulo 101
        x = x * 2 % 101;
        tree.insert(&mut pool, &mut disk, x, ItemPtr::new(x as i32 + 500)).unwrap();
        inserted.push(x);
        let probe = inserted[(x as usize) % inserted.len()];
        assert_eq!(
            tree.search(&mut pool, &mut disk, probe),
            Ok(Some(ItemPtr::new(probe as i32 + 500)))
        );
    }
    for &k in &inserted {
        assert_eq!(tree.search(&mut pool, &mut disk, k), Ok(Some(ItemPtr::new(k as i32 + 500))));
    }
    let mut expected = inserted.clone();
    expected.sort();
    expected.dedup();
    assert_eq!(expected.len(), 100);
    assert_eq!(tree.keys(&mut pool, &mut disk), Ok(expected));
    assert_eq!(tree.search(&mut pool, &mut disk, 0), Ok(None));
    assert_eq!(tree.search(&mut pool, &mut disk, 1000), Ok(None));
}

#[test]
fn tree_survives_reload_from_disk() {
    let (mut tree, mut pool, mut disk) = setup(4, 3);
    for k in 1..=30u32 {
        tree.insert(&mut pool, &mut disk, k * 3, ItemPtr::new(k as i32)).unwrap();
    }
    pool.flush_all(&mut disk).unwrap();
    assert!(pool.frames.iter().all(|f| !f.dirty));
    let mut fresh = BufferPool::new(3, pool.next_page);
    let again = BTree { root: tree.root, order: 3 };
    assert_eq!(again.search(&mut fresh, &mut disk, 45), Ok(Some(ItemPtr::new(15))));
    assert_eq!(again.search(&mut fresh, &mut disk, 46), Ok(None));
    let keys = again.keys(&mut fresh, &mut disk).unwrap();
    assert_eq!(keys, (1..=30u32).map(|k| k * 3).collect::<Vec<u32>>());
}

#[test]
fn replacing_a_record_keeps_one_key() {
    let (mut tree, mut pool, mut disk) = setup(4, 4);
    tree.insert(&mut pool, &mut disk, 5, ItemPtr::new(1)).unwrap();
    tree.insert(&mut pool, &mut disk, 5, ItemPtr::new(2)).unwrap();
    assert_eq!(tree.search(&mut pool, &mut disk, 5), Ok(Some(ItemPtr::new(2))));
    assert_eq!(tree.keys(&mut pool, &mut disk), Ok(vec![5]));
}

#[test]
fn too_few_frames_surface_capacity_exceeded() {
    let mut disk = Disk { pages: vec![[0u8; 512]] };
    let mut pool = BufferPool::new(1, 1);
    let mut tree = BTree::create(&mut pool, &mut disk, 2).unwrap();
    tree.insert(&mut pool, &mut disk, 1, ItemPtr::new(1)).unwrap();
    tree.insert(&mut pool, &mut disk, 2, ItemPtr::new(2)).unwrap();
    // a split needs the leaf and the new node in memory at once
    assert_eq!(
        tree.insert(&mut pool, &mut disk, 3, ItemPtr::new(3)),
        Err(StoreError::CapacityExceeded)
    );
}

#[test]
fn damaged_root_page_is_reported() {
    let (tree, mut pool, mut disk) = setup(2, 4);
    let p = tree.root.page_no;
    pool.flush(&mut disk, p).unwrap();
    let mut fresh = BufferPool::new(2, pool.next_page);
    disk.pages[p as usize][0] = 9;
    assert_eq!(
        tree.search(&mut fresh, &mut disk, 1),
        Err(StoreError::Decode(blink_store::codec::DecodeError::Malformed))
    );
}

#[test]
fn largest_order_that_fits_a_page() {
    // a full leaf of 60 keys takes 25 + 4 * 120 = 505 bytes
    let (mut tree, mut pool, mut disk) = setup(8, 60);
    for k in 0..400u32 {
        tree.insert(&mut pool, &mut disk, k * 5 % 401, ItemPtr::new(k as i32)).unwrap();
    }
    let keys = tree.keys(&mut pool, &mut disk).unwrap();
    let mut expected: Vec<u32> = (0..400u32).map(|k| k * 5 % 401).collect();
    expected.sort();
    assert_eq!(keys, expected);
}

#[test]
fn order_beyond_a_page_is_refused() {
    // a leaf of 61 keys would need 25 + 4 * 122 = 513 bytes
    let mut disk = Disk { pages: vec![[0u8; 512]] };
    let mut pool = BufferPool::new(2, 1);
    assert!(matches!(
        BTree::create(&mut pool, &mut disk, blink_store::btree::MAX_ORDER + 1),
        Err(StoreError::Encode(blink_store::codec::EncodeError::CapacityExceeded))
    ));
    assert_eq!(pool.next_page, 1);
    assert!(BTree::create(&mut pool, &mut disk, blink_store::btree::MAX_ORDER).is_ok());
}
