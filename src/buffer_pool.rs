use vstd::prelude::*;

use crate::codec::{fits_page, lemma_round_trip, page_image, parse, DecodeError, EncodeError};
use crate::node::{Node, NodeView};
use crate::page_table::{page_table, PageTable};
use crate::ptr::{ItemPtr, NULL_PAGE};

verus! {

/// What can make a storage operation fail.
#[derive(Debug, PartialEq, Eq, Structural)]
pub enum StoreError {
    /// Reading or writing the backing store failed.
    Io,
    /// The page is neither resident nor in the backing store.
    NotFound,
    /// No frame can be freed for the page, or a count would overflow.
    CapacityExceeded,
    /// The page was unpinned more often than it was pinned.
    NotPinned,
    /// A node does not fit in a page.
    Encode(EncodeError),
    /// A page does not hold a node.
    Decode(DecodeError),
}

/// Fixed-size page storage addressed by page number: page `p` occupies bytes
/// `[p * 512, (p + 1) * 512)` of the backing store. Failures are returned, never raised.
pub trait PagedFile {
    /// Reads page `page_no`.
    fn read_page(&mut self, page_no: i32) -> (r: Result<[u8; 512], StoreError>)
        requires
            page_no >= 0,
    ;

    /// Writes page `page_no`.
    fn write_page(&mut self, page_no: i32, page: &[u8; 512]) -> (r: Result<(), StoreError>)
        requires
            page_no >= 0,
    ;
}

/// An in-memory slot that holds one page, with its pin count and whether it changed since
/// it was loaded. A frame whose `page_no` is the null page number is free.
#[derive(Clone, Copy, Debug)]
pub struct BufferPoolFrame {
    pub dirty: bool,
    pub pins: i32,
    pub page_no: i32,
    pub page: [u8; 512],
}

/// Two frames are equal when they hold the same page number.
impl PartialEq for BufferPoolFrame {
    fn eq(&self, other: &Self) -> (r: bool)
        ensures
            r == (self.page_no == other.page_no),
    {
        self.page_no == other.page_no
    }
}

impl vstd::std_specs::cmp::PartialEqSpecImpl for BufferPoolFrame {
    open spec fn obeys_eq_spec() -> bool {
        true
    }

    open spec fn eq_spec(&self, other: &BufferPoolFrame) -> bool {
        self.page_no == other.page_no
    }
}

impl BufferPoolFrame {
    /// A clean, unpinned frame that holds `page` as page `page_no`.
    pub fn new(page_no: i32, page: [u8; 512]) -> (r: Self)
        ensures
            !r.dirty,
            r.pins == 0,
            r.page_no == page_no,
            r.page == page,
    {
        BufferPoolFrame { dirty: false, pins: 0, page_no, page }
    }

    /// A frame that holds no page.
    pub fn free() -> (r: Self)
        ensures
            !r.dirty,
            r.pins == 0,
            r.page_no == NULL_PAGE,
    {
        BufferPoolFrame::new(NULL_PAGE, [0u8; 512])
    }

    pub open spec fn is_free(&self) -> bool {
        self.page_no == NULL_PAGE
    }
}

/// A page that the table finds reads back as the node last stored for it: where the table
/// sends `page_no` to a frame that holds the page image of `v`, that frame holds page
/// `page_no` and its bytes decode to `v`.
pub proof fn lemma_resident_page_decodes(pool: &BufferPool, page_no: i32, v: NodeView)
    requires
        pool.wf(),
        pool.table@.contains_key(page_no),
        pool.frames@[pool.table@[page_no] as int].page@ == page_image(v),
        fits_page(v),
    ensures
        pool.frames@[pool.table@[page_no] as int].page_no == page_no,
        parse(pool.frames@[pool.table@[page_no] as int].page@) == Some(v),
{
    lemma_round_trip(v);
}

/// The cache of pages in memory: a fixed set of frames and the table that says which
/// frame holds which page.
///
/// Eviction takes a free frame where there is one, and otherwise the first unpinned frame
/// from a hand that moves on past each frame it takes (round robin over unpinned frames).
pub struct BufferPool {
    pub frames: Vec<BufferPoolFrame>,
    pub table: PageTable,
    pub hand: usize,
    pub next_page: i32,
}

impl BufferPool {
    /// The table and the frames agree: each resident page is in exactly the frame that the
    /// table names, free frames are clean and unpinned, and pin counts are never negative.
    pub open spec fn wf(&self) -> bool {
        &&& self.frames@.len() > 0
        &&& self.hand < self.frames@.len()
        &&& self.next_page >= 0
        &&& forall|p: i32| #[trigger]
            self.table@.contains_key(p) ==> p != NULL_PAGE && self.table@[p]
                < self.frames@.len() && self.frames@[self.table@[p] as int].page_no == p
        &&& forall|i: int| 0 <= i < self.frames@.len() ==> self.frame_ok(#[trigger] self.frames@[i], i)
    }

    pub open spec fn frame_ok(&self, f: BufferPoolFrame, i: int) -> bool {
        &&& f.pins >= 0
        &&& f.is_free() ==> f.pins == 0 && !f.dirty
        &&& !f.is_free() ==> 0 <= f.page_no < self.next_page && self.table@.contains_key(f.page_no)
            && self.table@[f.page_no] == i
    }

    /// Every frame pinned in `self` holds, in `after`, the same page with the same bytes.
    pub open spec fn pinned_kept(&self, after: &BufferPool) -> bool {
        &&& after.frames@.len() == self.frames@.len()
        &&& forall|i: int|
            0 <= i < self.frames@.len() && #[trigger] self.frames@[i].pins > 0 ==> after.frames@[i].page_no
                == self.frames@[i].page_no && after.frames@[i].page == self.frames@[i].page
    }

    /// `after` has the same frames as `self`, each pinned as often.
    pub open spec fn same_pins(&self, after: &BufferPool) -> bool {
        &&& after.frames@.len() == self.frames@.len()
        &&& forall|j: int|
            0 <= j < self.frames@.len() ==> (#[trigger] after.frames@[j]).pins == self.frames@[j].pins
    }

    /// A pool of `capacity` free frames; pages from `next_page` on are new.
    pub fn new(capacity: usize, next_page: i32) -> (r: Self)
        requires
            capacity > 0,
            next_page >= 0,
        ensures
            r.wf(),
            r.frames@.len() == capacity,
            r.next_page == next_page,
            r.table@ == Map::<i32, usize>::empty(),
            forall|i: int| 0 <= i < capacity ==> (#[trigger] r.frames@[i]).is_free(),
    {
        let mut frames: Vec<BufferPoolFrame> = Vec::new();
        let mut i: usize = 0;
        while i < capacity
            invariant
                i <= capacity,
                frames@.len() == i,
                forall|j: int| 0 <= j < i ==> (#[trigger] frames@[j]).is_free() && frames@[j].pins == 0
                    && !frames@[j].dirty,
            decreases capacity - i,
        {
            frames.push(BufferPoolFrame::free());
            i = i + 1;
        }
        BufferPool { frames, table: page_table(), hand: 0, next_page }
    }

    /// The frame that holds `page_no`, if it is resident.
    pub fn lookup(&self, page_no: i32) -> (r: Option<usize>)
        ensures
            r == if self.table@.contains_key(page_no) {
                Some(self.table@[page_no])
            } else {
                None::<usize>
            },
    {
        self.table.lookup(page_no)
    }

    /// The frame to reuse for a new page: a free frame where there is one, else an unpinned
    /// frame, found from the hand on. A pinned frame is never chosen.
    pub fn victim(&self) -> (r: Option<usize>)
        requires
            self.wf(),
        ensures
            match r {
                Some(i) => i < self.frames@.len() && self.frames@[i as int].pins == 0 && ((exists|
                    j: int,
                | 0 <= j < self.frames@.len() && (#[trigger] self.frames@[j]).is_free())
                    ==> self.frames@[i as int].is_free()),
                None => forall|j: int|
                    0 <= j < self.frames@.len() ==> (#[trigger] self.frames@[j]).pins > 0,
            },
    {
        let n = self.frames.len();
        let mut i: usize = 0;
        while i < n
            invariant
                i <= n,
                n == self.frames@.len(),
                self.wf(),
                forall|j: int| 0 <= j < i ==> !(#[trigger] self.frames@[j]).is_free(),
            decreases n - i,
        {
            if self.frames[i].page_no == NULL_PAGE {
                assert(self.frame_ok(self.frames@[i as int], i as int));
                return Some(i);
            }
            i = i + 1;
        }
        let mut j: usize = self.hand;
        while j < n
            invariant
                self.hand <= j <= n,
                n == self.frames@.len(),
                self.wf(),
                forall|m: int| 0 <= m < n ==> !(#[trigger] self.frames@[m]).is_free(),
                forall|m: int| self.hand <= m < j ==> (#[trigger] self.frames@[m]).pins > 0,
            decreases n - j,
        {
            assert(self.frame_ok(self.frames@[j as int], j as int));
            if self.frames[j].pins == 0 {
                return Some(j);
            }
            j = j + 1;
        }
        let mut j: usize = 0;
        while j < self.hand
            invariant
                j <= self.hand < n,
                n == self.frames@.len(),
                self.wf(),
                forall|m: int| 0 <= m < n ==> !(#[trigger] self.frames@[m]).is_free(),
                forall|m: int| self.hand <= m < n ==> (#[trigger] self.frames@[m]).pins > 0,
                forall|m: int| 0 <= m < j ==> (#[trigger] self.frames@[m]).pins > 0,
            decreases self.hand - j,
        {
            assert(self.frame_ok(self.frames@[j as int], j as int));
            if self.frames[j].pins == 0 {
                return Some(j);
            }
            j = j + 1;
        }
        None
    }

    /// Writes back and frees frame `v`, which no one holds. On failure nothing changes.
    fn evict<F: PagedFile>(&mut self, file: &mut F, v: usize) -> (r: Result<(), StoreError>)
        requires
            old(self).wf(),
            v < old(self).frames@.len(),
            old(self).frames@[v as int].pins == 0,
        ensures
            old(self).frames@[v as int].is_free() || !old(self).frames@[v as int].dirty ==> r is Ok,
            final(self).next_page == old(self).next_page,
            match r {
                Ok(_) => {
                    &&& final(self).wf()
                    &&& final(self).frames@ == old(self).frames@.update(
                        v as int,
                        final(self).frames@[v as int],
                    )
                    &&& final(self).frames@[v as int].is_free()
                    &&& final(self).table@ == old(self).table@.remove(
                        old(self).frames@[v as int].page_no,
                    )
                },
                Err(_) => {
                    &&& final(self).wf()
                    &&& final(self).frames@ == old(self).frames@
                    &&& final(self).table@ == old(self).table@
                },
            },
    {
        let f = self.frames[v];
        assert(self.frame_ok(f, v as int));
        if f.page_no != NULL_PAGE {
            if f.dirty {
                match file.write_page(f.page_no, &f.page) {
                    Ok(_) => {},
                    Err(e) => {
                        return Err(e);
                    },
                }
            }
            self.table.remove(f.page_no);
        } else {
            assert(!self.table@.contains_key(NULL_PAGE));
            assert(self.table@.remove(NULL_PAGE) =~= self.table@);
        }
        self.frames.set(v, BufferPoolFrame::free());
        let n = self.frames.len();
        self.hand = if v < n - 1 {
            v + 1
        } else {
            0
        };
        proof {
            let o = old(self);
            assert forall|p: i32| #[trigger] self.table@.contains_key(p) implies p != NULL_PAGE
                && self.table@[p] < self.frames@.len() && self.frames@[self.table@[p] as int].page_no
                == p by {
                assert(o.table@.contains_key(p));
                if o.table@[p] == v {
                    assert(o.frames@[v as int].page_no == p);
                }
            }
            assert forall|i: int| 0 <= i < self.frames@.len() implies self.frame_ok(
                #[trigger] self.frames@[i],
                i,
            ) by {
                if i != v {
                    assert(o.frame_ok(o.frames@[i], i));
                }
            }
        }
        Ok(())
    }

    /// Puts `page` as page `page_no` into the free frame `v`, pinned once.
    fn install(&mut self, v: usize, page_no: i32, page: [u8; 512], dirty: bool)
        requires
            old(self).wf(),
            v < old(self).frames@.len(),
            old(self).frames@[v as int].is_free(),
            0 <= page_no < old(self).next_page,
            !old(self).table@.contains_key(page_no),
        ensures
            final(self).wf(),
            final(self).next_page == old(self).next_page,
            final(self).frames@ == old(self).frames@.update(
                v as int,
                BufferPoolFrame { dirty, pins: 1, page_no, page },
            ),
            final(self).table@ == old(self).table@.insert(page_no, v),
    {
        self.frames.set(v, BufferPoolFrame { dirty, pins: 1, page_no, page });
        self.table.insert(page_no, v);
        proof {
            let o = old(self);
            assert forall|p: i32| #[trigger] self.table@.contains_key(p) implies p != NULL_PAGE
                && self.table@[p] < self.frames@.len() && self.frames@[self.table@[p] as int].page_no
                == p by {
                if p != page_no {
                    assert(o.table@.contains_key(p));
                    assert(o.table@[p] != v);
                }
            }
            assert forall|i: int| 0 <= i < self.frames@.len() implies self.frame_ok(
                #[trigger] self.frames@[i],
                i,
            ) by {
                if i != v {
                    assert(o.frame_ok(o.frames@[i], i));
                }
            }
        }
    }

    /// Pins page `page_no` and returns the frame that holds it, loading the page from
    /// `file` into a reused frame where it is not resident. Pinned frames keep their pages.
    pub fn fetch<F: PagedFile>(&mut self, file: &mut F, page_no: i32) -> (r: Result<
        usize,
        StoreError,
    >)
        requires
            old(self).wf(),
        ensures
            final(self).wf(),
            old(self).pinned_kept(final(self)),
            final(self).next_page == old(self).next_page,
            match r {
                Ok(i) => {
                    &&& i < final(self).frames@.len()
                    &&& final(self).table@.contains_key(page_no)
                    &&& final(self).table@[page_no] == i
                    &&& final(self).frames@[i as int].page_no == page_no
                    &&& final(self).frames@[i as int].pins >= 1
                    &&& forall|j: int|
                        0 <= j < final(self).frames@.len() && j != i ==> (#[trigger] final(self).frames@[j]).pins
                            == old(self).frames@[j].pins
                    &&& old(self).table@.contains_key(page_no) ==> {
                        &&& i == old(self).table@[page_no]
                        &&& final(self).frames@[i as int].pins == old(self).frames@[i as int].pins + 1
                        &&& final(self).frames@[i as int].page == old(self).frames@[i as int].page
                        &&& final(self).frames@[i as int].dirty == old(self).frames@[i as int].dirty
                        &&& final(self).table@ == old(self).table@
                        &&& final(self).frames@ == old(self).frames@.update(
                            i as int,
                            BufferPoolFrame {
                                pins: (old(self).frames@[i as int].pins + 1) as i32,
                                ..old(self).frames@[i as int]
                            },
                        )
                    }
                    &&& !old(self).table@.contains_key(page_no) ==> {
                        &&& old(self).frames@[i as int].pins == 0
                        &&& final(self).frames@[i as int].pins == 1
                        &&& !final(self).frames@[i as int].dirty
                    }
                },
                Err(_) => {
                    &&& final(self).frames@ == old(self).frames@
                    &&& final(self).table@ == old(self).table@
                },
            },
            old(self).table@.contains_key(page_no) ==> (r is Ok <==> old(self).frames@[old(
                self,
            ).table@[page_no] as int].pins < i32::MAX),
            old(self).table@.contains_key(page_no) && old(self).frames@[old(
                self,
            ).table@[page_no] as int].pins == i32::MAX ==> r == Err::<usize, StoreError>(
                StoreError::CapacityExceeded,
            ),
            !old(self).table@.contains_key(page_no) && (page_no < 0 || page_no
                >= old(self).next_page) ==> r == Err::<usize, StoreError>(StoreError::NotFound),
            !old(self).table@.contains_key(page_no) && 0 <= page_no < old(self).next_page && (
            forall|j: int|
                0 <= j < old(self).frames@.len() ==> (#[trigger] old(self).frames@[j]).pins > 0)
                ==> r == Err::<usize, StoreError>(StoreError::CapacityExceeded),
    {
        match self.table.lookup(page_no) {
            Some(i) => {
                let mut f = self.frames[i];
                if f.pins == i32::MAX {
                    return Err(StoreError::CapacityExceeded);
                }
                f.pins = f.pins + 1;
                self.frames.set(i, f);
                proof {
                    let o = old(self);
                    assert forall|k: int| 0 <= k < self.frames@.len() implies self.frame_ok(
                        #[trigger] self.frames@[k],
                        k,
                    ) by {
                        assert(o.frame_ok(o.frames@[k], k));
                    }
                }
                Ok(i)
            },
            None => {
                if page_no < 0 || page_no >= self.next_page {
                    return Err(StoreError::NotFound);
                }
                let v = match self.victim() {
                    Some(v) => v,
                    None => {
                        return Err(StoreError::CapacityExceeded);
                    },
                };
                let page = match file.read_page(page_no) {
                    Ok(p) => p,
                    Err(e) => {
                        return Err(e);
                    },
                };
                match self.evict(file, v) {
                    Ok(_) => {},
                    Err(e) => {
                        return Err(e);
                    },
                }
                self.install(v, page_no, page, false);
                Ok(v)
            },
        }
    }

    /// Releases one pin on page `page_no`, marking it dirty where `became_dirty`.
    pub fn unpin(&mut self, page_no: i32, became_dirty: bool) -> (r: Result<(), StoreError>)
        requires
            old(self).wf(),
        ensures
            final(self).wf(),
            final(self).table@ == old(self).table@,
            final(self).next_page == old(self).next_page,
            !old(self).table@.contains_key(page_no) ==> r == Err::<(), StoreError>(
                StoreError::NotFound,
            ),
            old(self).table@.contains_key(page_no) && old(self).frames@[old(
                self,
            ).table@[page_no] as int].pins == 0 ==> r == Err::<(), StoreError>(
                StoreError::NotPinned,
            ),
            old(self).table@.contains_key(page_no) && old(self).frames@[old(
                self,
            ).table@[page_no] as int].pins > 0 ==> r is Ok,
            r is Err ==> final(self).frames@ == old(self).frames@,
            r is Ok ==> {
                let i = old(self).table@[page_no] as int;
                let f = old(self).frames@[i];
                &&& old(self).table@.contains_key(page_no)
                &&& f.pins > 0
                &&& final(self).frames@ == old(self).frames@.update(
                    i,
                    BufferPoolFrame { dirty: f.dirty || became_dirty, pins: (f.pins - 1) as i32, ..f },
                )
            },
    {
        match self.table.lookup(page_no) {
            None => Err(StoreError::NotFound),
            Some(i) => {
                let mut f = self.frames[i];
                assert(self.frame_ok(f, i as int));
                if f.pins == 0 {
                    return Err(StoreError::NotPinned);
                }
                f.pins = f.pins - 1;
                f.dirty = f.dirty || became_dirty;
                self.frames.set(i, f);
                proof {
                    let o = old(self);
                    assert forall|k: int| 0 <= k < self.frames@.len() implies self.frame_ok(
                        #[trigger] self.frames@[k],
                        k,
                    ) by {
                        assert(o.frame_ok(o.frames@[k], k));
                    }
                }
                Ok(())
            },
        }
    }

    /// Writes page `page_no` to `file` if it changed since it was loaded, and marks it clean.
    pub fn flush<F: PagedFile>(&mut self, file: &mut F, page_no: i32) -> (r: Result<
        (),
        StoreError,
    >)
        requires
            old(self).wf(),
        ensures
            final(self).wf(),
            final(self).table@ == old(self).table@,
            final(self).next_page == old(self).next_page,
            !old(self).table@.contains_key(page_no) ==> r == Err::<(), StoreError>(
                StoreError::NotFound,
            ),
            old(self).table@.contains_key(page_no) && !old(self).frames@[old(
                self,
            ).table@[page_no] as int].dirty ==> r is Ok && final(self).frames@ == old(self).frames@,
            r is Err ==> final(self).frames@ == old(self).frames@,
            r is Ok ==> {
                let i = old(self).table@[page_no] as int;
                let f = old(self).frames@[i];
                &&& old(self).table@.contains_key(page_no)
                &&& final(self).frames@ == old(self).frames@.update(
                    i,
                    BufferPoolFrame { dirty: false, ..f },
                )
            },
    {
        match self.table.lookup(page_no) {
            None => Err(StoreError::NotFound),
            Some(i) => {
                let mut f = self.frames[i];
                assert(self.frame_ok(f, i as int));
                if !f.dirty {
                    assert(self.frames@.update(i as int, f) =~= self.frames@);
                    return Ok(());
                }
                match file.write_page(page_no, &f.page) {
                    Ok(_) => {},
                    Err(e) => {
                        return Err(e);
                    },
                }
                f.dirty = false;
                self.frames.set(i, f);
                proof {
                    let o = old(self);
                    assert forall|k: int| 0 <= k < self.frames@.len() implies self.frame_ok(
                        #[trigger] self.frames@[k],
                        k,
                    ) by {
                        assert(o.frame_ok(o.frames@[k], k));
                    }
                }
                Ok(())
            },
        }
    }

    /// Takes the next unused page number and a frame for it, pinned once and dirty, so
    /// that the new page reaches the file when it is flushed or evicted.
    pub fn allocate_new<F: PagedFile>(&mut self, file: &mut F) -> (r: Result<
        (ItemPtr, usize),
        StoreError,
    >)
        requires
            old(self).wf(),
        ensures
            final(self).wf(),
            old(self).pinned_kept(final(self)),
            match r {
                Ok((p, i)) => {
                    &&& p.page_no == old(self).next_page
                    &&& final(self).next_page == old(self).next_page + 1
                    &&& !old(self).table@.contains_key(p.page_no)
                    &&& i < final(self).frames@.len()
                    &&& old(self).frames@[i as int].pins == 0
                    &&& final(self).table@.contains_key(p.page_no)
                    &&& final(self).table@[p.page_no] == i
                    &&& final(self).frames@[i as int].page_no == p.page_no
                    &&& final(self).frames@[i as int].pins == 1
                    &&& final(self).frames@[i as int].dirty
                    &&& forall|k: int|
                        0 <= k < 512 ==> #[trigger] final(self).frames@[i as int].page@[k] == 0u8
                    &&& forall|j: int|
                        0 <= j < final(self).frames@.len() && j != i ==> (#[trigger] final(self).frames@[j]).pins
                            == old(self).frames@[j].pins
                },
                Err(_) => {
                    &&& final(self).frames@ == old(self).frames@
                    &&& final(self).table@ == old(self).table@
                    &&& final(self).next_page == old(self).next_page
                },
            },
            old(self).next_page == i32::MAX ==> r == Err::<(ItemPtr, usize), StoreError>(
                StoreError::CapacityExceeded,
            ),
            (forall|j: int|
                0 <= j < old(self).frames@.len() ==> (#[trigger] old(self).frames@[j]).pins > 0)
                ==> r == Err::<(ItemPtr, usize), StoreError>(StoreError::CapacityExceeded),
            old(self).next_page < i32::MAX && (exists|j: int|
                0 <= j < old(self).frames@.len() && (#[trigger] old(self).frames@[j]).is_free())
                ==> r is Ok,
    {
        if self.next_page == i32::MAX {
            return Err(StoreError::CapacityExceeded);
        }
        let v = match self.victim() {
            Some(v) => v,
            None => {
                return Err(StoreError::CapacityExceeded);
            },
        };
        match self.evict(file, v) {
            Ok(_) => {},
            Err(e) => {
                return Err(e);
            },
        }
        let page_no = self.next_page;
        proof {
            assert forall|p: i32| #[trigger] self.table@.contains_key(p) implies p < page_no by {
                let k = self.table@[p] as int;
                assert(self.frame_ok(self.frames@[k], k));
            }
        }
        self.next_page = page_no + 1;
        proof {
            assert forall|k: int| 0 <= k < self.frames@.len() implies self.frame_ok(
                #[trigger] self.frames@[k],
                k,
            ) by {
                assert(self.frames@[k].pins >= 0);
            }
        }
        self.install(v, page_no, [0u8; 512], true);
        Ok((ItemPtr::new(page_no), v))
    }

    /// The node that frame `i` holds.
    pub fn read_node(&self, i: usize) -> (r: Result<Node, StoreError>)
        requires
            i < self.frames@.len(),
        ensures
            match r {
                Ok(n) => parse(self.frames@[i as int].page@) == Some(n@),
                Err(e) => parse(self.frames@[i as int].page@) is None && e == StoreError::Decode(
                    DecodeError::Malformed,
                ),
            },
    {
        match Node::from_buffer(&self.frames[i].page) {
            Ok(n) => Ok(n),
            Err(e) => Err(StoreError::Decode(e)),
        }
    }

    /// Stores `node` in frame `i` and marks the frame dirty. Fails with `CapacityExceeded`,
    /// changing nothing, where the node does not fit in a page.
    pub fn write_node(&mut self, i: usize, node: &Node) -> (r: Result<(), StoreError>)
        requires
            old(self).wf(),
            i < old(self).frames@.len(),
            !old(self).frames@[i as int].is_free(),
        ensures
            final(self).wf(),
            final(self).table@ == old(self).table@,
            final(self).next_page == old(self).next_page,
            match r {
                Ok(_) => {
                    let f = old(self).frames@[i as int];
                    &&& fits_page(node@)
                    &&& final(self).frames@[i as int].page@ == page_image(node@)
                    &&& final(self).frames@ == old(self).frames@.update(
                        i as int,
                        BufferPoolFrame { dirty: true, page: final(self).frames@[i as int].page, ..f },
                    )
                },
                Err(e) => {
                    &&& !fits_page(node@)
                    &&& e == StoreError::Encode(EncodeError::CapacityExceeded)
                    &&& final(self).frames@ == old(self).frames@
                },
            },
    {
        let page = match node.into_buffer() {
            Ok(p) => p,
            Err(e) => {
                return Err(StoreError::Encode(e));
            },
        };
        let mut f = self.frames[i];
        f.page = page;
        f.dirty = true;
        self.frames.set(i, f);
        proof {
            let o = old(self);
            assert forall|k: int| 0 <= k < self.frames@.len() implies self.frame_ok(
                #[trigger] self.frames@[k],
                k,
            ) by {
                assert(o.frame_ok(o.frames@[k], k));
            }
        }
        Ok(())
    }

    /// Writes every dirty resident page to `file`, in frame order, and marks it clean. Stops
    /// at the first failed write. Pins, pages and the table do not change.
    pub fn flush_all<F: PagedFile>(&mut self, file: &mut F) -> (r: Result<(), StoreError>)
        requires
            old(self).wf(),
        ensures
            final(self).wf(),
            final(self).table@ == old(self).table@,
            final(self).next_page == old(self).next_page,
            final(self).frames@.len() == old(self).frames@.len(),
            forall|j: int|
                0 <= j < old(self).frames@.len() ==> {
                    &&& (#[trigger] final(self).frames@[j]).page_no == old(self).frames@[j].page_no
                    &&& final(self).frames@[j].pins == old(self).frames@[j].pins
                    &&& final(self).frames@[j].page == old(self).frames@[j].page
                    &&& final(self).frames@[j].dirty ==> old(self).frames@[j].dirty
                },
            (forall|j: int|
                0 <= j < old(self).frames@.len() ==> !(#[trigger] old(self).frames@[j]).dirty)
                ==> r is Ok,
            r is Ok ==> forall|j: int|
                0 <= j < final(self).frames@.len() ==> !(#[trigger] final(self).frames@[j]).dirty,
    {
        let n = self.frames.len();
        let mut i: usize = 0;
        while i < n
            invariant
                i <= n,
                self.wf(),
                n == self.frames@.len(),
                self.table@ == old(self).table@,
                self.next_page == old(self).next_page,
                n == old(self).frames@.len(),
                forall|j: int|
                    0 <= j < n ==> {
                        &&& (#[trigger] self.frames@[j]).page_no == old(self).frames@[j].page_no
                        &&& self.frames@[j].pins == old(self).frames@[j].pins
                        &&& self.frames@[j].page == old(self).frames@[j].page
                        &&& self.frames@[j].dirty ==> old(self).frames@[j].dirty
                    },
                forall|j: int| 0 <= j < i ==> !(#[trigger] self.frames@[j]).dirty,
                forall|j: int| i <= j < n ==> (#[trigger] self.frames@[j]).dirty == old(self).frames@[j].dirty,
            decreases n - i,
        {
            let f = self.frames[i];
            if f.dirty {
                assert(self.frame_ok(f, i as int));
                match self.flush(file, f.page_no) {
                    Ok(_) => {},
                    Err(e) => {
                        return Err(e);
                    },
                }
            }
            i = i + 1;
        }
        Ok(())
    }
}

} // verus!
