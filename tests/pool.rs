use blink_store::buffer_pool::{BufferPool, BufferPoolFrame, PagedFile, StoreError};
use blink_store::node::Node;
use blink_store::page_table::{page_table, PageTable};
use blink_store::ptr::ItemPtr;

struct MemFile {
    pages: Vec<[u8; 512]>,
    writes: usize,
}

impl MemFile {
    fn with_pages(n: usize) -> MemFile {
        let mut pages = Vec::new();
        for p in 0..n {
            let mut page = [0u8; 512];
            page[0] = p as u8;
            pages.push(page);
        }
        MemFile { pages, writes: 0 }
    }
}

impl PagedFile for MemFile {
    fn read_page(&mut self, page_no: i32) -> Result<[u8; 512], StoreError> {
        self.pages.get(page_no as usize).copied().ok_or(StoreError::NotFound)
    }

    fn write_page(&mut self, page_no: i32, page: &[u8; 512]) -> Result<(), StoreError> {
        let p = page_no as usize;
        while self.pages.len() <= p {
            self.pages.push([0u8; 512]);
        }
        self.pages[p] = *page;
        self.writes += 1;
        Ok(())
    }
}

#[test]
fn page_table_lookup_insert_remove() {
    let mut t: PageTable = page_table();
    assert_eq!(t.lookup(3), None);
    assert_eq!(t.insert(3, 1), None);
    assert_eq!(t.lookup(3), Some(1));
    assert_eq!(t.insert(3, 2), Some(1));
    assert_eq!(t.remove(3), Some(2));
    assert_eq!(t.lookup(3), None);
    assert_eq!(t.remove(3), None);
    let mut u = PageTable::new();
    u.insert(-5, 0);
    assert_eq!(u.lookup(-5), Some(0));
}

#[test]
fn frame_new_is_clean_and_unpinned() {
    let f = BufferPoolFrame::new(4, [9u8; 512]);
    assert!(!f.dirty);
    assert_eq!(f.pins, 0);
    assert_eq!(f.page_no, 4);
    assert_eq!(f.page[511], 9);
}

#[test]
fn fetch_loads_and_registers_the_page() {
    let mut file = MemFile::with_pages(4);
    let mut pool = BufferPool::new(2, 4);
    let i = pool.fetch(&mut file, 3).unwrap();
    assert_eq!(pool.lookup(3), Some(i));
    assert_eq!(pool.frames[i].page_no, 3);
    assert_eq!(pool.frames[i].pins, 1);
    assert_eq!(pool.frames[i].page[0], 3);
    let j = pool.fetch(&mut file, 3).unwrap();
    assert_eq!(i, j);
    assert_eq!(pool.frames[i].pins, 2);
}

#[test]
fn fetch_of_unknown_page_is_not_found() {
    let mut file = MemFile::with_pages(4);
    let mut pool = BufferPool::new(2, 4);
    assert_eq!(pool.fetch(&mut file, 4), Err(StoreError::NotFound));
    assert_eq!(pool.fetch(&mut file, -1), Err(StoreError::NotFound));
}

#[test]
fn pinned_frames_are_never_evicted() {
    let mut file = MemFile::with_pages(4);
    let mut pool = BufferPool::new(2, 4);
    let a = pool.fetch(&mut file, 0).unwrap();
    let b = pool.fetch(&mut file, 1).unwrap();
    assert_eq!(pool.victim(), None);
    assert_eq!(pool.fetch(&mut file, 2), Err(StoreError::CapacityExceeded));
    assert_eq!(pool.frames[a].page_no, 0);
    assert_eq!(pool.frames[b].page_no, 1);
    pool.unpin(1, false).unwrap();
    assert_eq!(pool.victim(), Some(b));
    let c = pool.fetch(&mut file, 2).unwrap();
    assert_eq!(c, b);
    assert_eq!(pool.lookup(1), None);
    assert_eq!(pool.lookup(0), Some(a));
    assert_eq!(pool.frames[a].pins, 1);
}

#[test]
fn hammering_fetch_and_unpin_keeps_pinned_pages() {
    let mut file = MemFile::with_pages(16);
    let mut pool = BufferPool::new(3, 16);
    let held = pool.fetch(&mut file, 0).unwrap();
    for round in 0..200u32 {
        let p = (round * 7 % 15 + 1) as i32;
        let i = pool.fetch(&mut file, p).unwrap();
        assert_ne!(i, held);
        assert_eq!(pool.frames[held].page_no, 0);
        assert_eq!(pool.frames[held].page[0], 0);
        pool.unpin(p, false).unwrap();
    }
}

#[test]
fn dirty_page_is_written_back_on_eviction() {
    let mut file = MemFile::with_pages(4);
    let mut pool = BufferPool::new(1, 4);
    let i = pool.fetch(&mut file, 2).unwrap();
    let node = Node::new(4, ItemPtr::new(2), ItemPtr::null(), vec![5, 6], vec![ItemPtr::new(1), ItemPtr::new(2)]);
    pool.write_node(i, &node).unwrap();
    assert!(pool.frames[i].dirty);
    pool.unpin(2, true).unwrap();
    pool.fetch(&mut file, 3).unwrap();
    assert_eq!(file.writes, 1);
    let back = Node::from_buffer(&file.pages[2]).unwrap();
    assert_eq!(back.keys, vec![5, 6]);
}

#[test]
fn flush_writes_only_dirty_pages() {
    let mut file = MemFile::with_pages(4);
    let mut pool = BufferPool::new(2, 4);
    let i = pool.fetch(&mut file, 1).unwrap();
    pool.flush(&mut file, 1).unwrap();
    assert_eq!(file.writes, 0);
    let node = Node::empty_leaf(4, ItemPtr::new(1));
    pool.write_node(i, &node).unwrap();
    pool.flush(&mut file, 1).unwrap();
    assert_eq!(file.writes, 1);
    assert!(!pool.frames[i].dirty);
    assert_eq!(pool.flush(&mut file, 3), Err(StoreError::NotFound));
}

#[test]
fn unpin_errors() {
    let mut file = MemFile::with_pages(4);
    let mut pool = BufferPool::new(2, 4);
    assert_eq!(pool.unpin(1, false), Err(StoreError::NotFound));
    pool.fetch(&mut file, 1).unwrap();
    pool.unpin(1, true).unwrap();
    assert_eq!(pool.unpin(1, false), Err(StoreError::NotPinned));
    let i = pool.lookup(1).unwrap();
    assert!(pool.frames[i].dirty);
}

#[test]
fn allocate_new_numbers_pages_in_turn() {
    let mut file = MemFile::with_pages(0);
    let mut pool = BufferPool::new(2, 1);
    let (p, i) = pool.allocate_new(&mut file).unwrap();
    assert_eq!(p.page_no, 1);
    assert_eq!(pool.frames[i].pins, 1);
    assert!(pool.frames[i].dirty);
    let (q, _) = pool.allocate_new(&mut file).unwrap();
    assert_eq!(q.page_no, 2);
    assert_eq!(pool.allocate_new(&mut file), Err(StoreError::CapacityExceeded));
    assert_eq!(pool.next_page, 3);
}

#[test]
fn oversized_node_leaves_the_frame_untouched() {
    let mut file = MemFile::with_pages(2);
    let mut pool = BufferPool::new(1, 2);
    let i = pool.fetch(&mut file, 1).unwrap();
    let before = pool.frames[i].page;
    let keys: Vec<u32> = (0..100).collect();
    let children: Vec<ItemPtr> = (0..100).map(ItemPtr::new).collect();
    let n = Node::new(200, ItemPtr::new(1), ItemPtr::null(), keys, children);
    assert_eq!(
        pool.write_node(i, &n),
        Err(StoreError::Encode(blink_store::codec::EncodeError::CapacityExceeded))
    );
    assert_eq!(pool.frames[i].page, before);
    assert!(!pool.frames[i].dirty);
    pool.unpin(1, false).unwrap();
    pool.flush(&mut file, 1).unwrap();
    assert_eq!(file.writes, 0);
}

#[test]
fn fetched_page_decodes_to_the_node_last_written() {
    let mut file = MemFile::with_pages(3);
    let mut pool = BufferPool::new(2, 3);
    let i = pool.fetch(&mut file, 2).unwrap();
    let node = Node::new(4, ItemPtr::new(2), ItemPtr::null(), vec![8], vec![ItemPtr::new(80)]);
    pool.write_node(i, &node).unwrap();
    pool.unpin(2, true).unwrap();
    let j = pool.fetch(&mut file, 2).unwrap();
    assert_eq!(pool.lookup(2), Some(j));
    let back = pool.read_node(j).unwrap();
    assert_eq!(back.keys, vec![8]);
    assert_eq!(back.children, vec![ItemPtr::new(80)]);
}

struct FailingFile;

impl PagedFile for FailingFile {
    fn read_page(&mut self, _page_no: i32) -> Result<[u8; 512], StoreError> {
        Err(StoreError::Io)
    }

    fn write_page(&mut self, _page_no: i32, _page: &[u8; 512]) -> Result<(), StoreError> {
        Err(StoreError::Io)
    }
}

#[test]
fn failed_io_changes_nothing() {
    let mut pool = BufferPool::new(1, 5);
    assert_eq!(pool.fetch(&mut FailingFile, 2), Err(StoreError::Io));
    assert_eq!(pool.lookup(2), None);
    let (p, i) = pool.allocate_new(&mut FailingFile).unwrap();
    pool.unpin(p.page_no, true).unwrap();
    // the new page is dirty: evicting it needs a write, which fails
    assert_eq!(pool.allocate_new(&mut FailingFile), Err(StoreError::Io));
    assert_eq!(pool.lookup(p.page_no), Some(i));
    assert!(pool.frames[i].dirty);
    assert_eq!(pool.next_page, 6);
    assert_eq!(pool.flush(&mut FailingFile, p.page_no), Err(StoreError::Io));
    assert!(pool.frames[i].dirty);
}

#[test]
fn frames_compare_by_page_number() {
    let a = BufferPoolFrame::new(4, [1u8; 512]);
    let mut b = BufferPoolFrame::new(4, [2u8; 512]);
    b.pins = 3;
    assert!(a == b);
    assert!(a != BufferPoolFrame::new(5, [1u8; 512]));
}

#[test]
fn allocate_new_gives_a_zero_page() {
    let mut file = MemFile::with_pages(0);
    let mut pool = BufferPool::new(1, 1);
    let (p, i) = pool.allocate_new(&mut file).unwrap();
    assert!(pool.frames[i].page.iter().all(|&b| b == 0));
    pool.unpin(p.page_no, false).unwrap();
}
