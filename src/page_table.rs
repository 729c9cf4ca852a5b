use vstd::prelude::*;
use std::collections::HashMap;

verus! {

broadcast use vstd::std_specs::hash::group_hash_axioms;

/// Where each resident page is held: page number to frame index.
pub struct PageTable {
    map: HashMap<i32, usize>,
}

impl View for PageTable {
    type V = Map<i32, usize>;

    closed spec fn view(&self) -> Map<i32, usize> {
        self.map@
    }
}

/// An empty page table.
pub fn page_table() -> (r: PageTable)
    ensures
        r@ == Map::<i32, usize>::empty(),
{
    PageTable { map: HashMap::new() }
}

impl PageTable {
    /// An empty page table.
    pub fn new() -> (r: PageTable)
        ensures
            r@ == Map::<i32, usize>::empty(),
    {
        page_table()
    }

    /// The frame that holds `page_no`, if it is resident.
    pub fn lookup(&self, page_no: i32) -> (r: Option<usize>)
        ensures
            r == if self@.contains_key(page_no) {
                Some(self@[page_no])
            } else {
                None::<usize>
            },
    {
        match self.map.get(&page_no) {
            Some(f) => Some(*f),
            None => None,
        }
    }

    /// Records that `frame` holds `page_no`; returns the frame recorded before, if any.
    pub fn insert(&mut self, page_no: i32, frame: usize) -> (r: Option<usize>)
        ensures
            final(self)@ == old(self)@.insert(page_no, frame),
            r == if old(self)@.contains_key(page_no) {
                Some(old(self)@[page_no])
            } else {
                None::<usize>
            },
    {
        self.map.insert(page_no, frame)
    }

    /// Forgets `page_no`; returns the frame that held it, if any.
    pub fn remove(&mut self, page_no: i32) -> (r: Option<usize>)
        ensures
            final(self)@ == old(self)@.remove(page_no),
            r == if old(self)@.contains_key(page_no) {
                Some(old(self)@[page_no])
            } else {
                None::<usize>
            },
    {
        self.map.remove(&page_no)
    }
}

} // verus!
