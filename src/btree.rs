use vstd::prelude::*;

use crate::buffer_pool::{BufferPool, BufferPoolFrame, PagedFile, StoreError};
use crate::codec::{fits_page, lemma_round_trip, page_image, parse, DecodeError, EncodeError, HEADER_SIZE, PAGE_SIZE};
use crate::node::{empty_leaf_view, is_slot, lemma_slot_unique, must_move_right, record_put, step_of, Node, NodeView, Step};
use crate::ptr::ItemPtr;

verus! {

/// Some frame of the pool holds the page image of `v`.
pub open spec fn resident_node(pool: &BufferPool, v: NodeView) -> bool {
    exists|i: int| 0 <= i < pool.frames@.len() && parse(pool.frames@[i].page@) == Some(v)
}

/// `v` is a leaf that covers `key`, and `ans` is what it says of the key: the record
/// pointer paired with it, or none where the leaf does not hold it.
pub open spec fn leaf_answer(v: NodeView, key: u32, ans: Option<ItemPtr>) -> bool {
    &&& v.wf_shape()
    &&& v.leaf
    &&& !must_move_right(v, key)
    &&& match ans {
        Some(p) => exists|j: int| 0 <= j < v.keys.len() && v.keys[j] == key && v.children[j] == p,
        None => !v.keys.contains(key),
    }
}

/// What a search for `key` from page `page` comes to over the pool's resident frames, in at
/// most `fuel` pages: the answer, or an error that the library itself decides (a damaged
/// page, a page number beyond the file, a pin count at its limit, a walk that does not end).
/// `None` where the search would read a page from the file.
pub open spec fn walk(pool: &BufferPool, page: i32, key: u32, fuel: nat) -> Option<
    Result<Option<ItemPtr>, StoreError>,
>
    decreases fuel,
{
    if fuel == 0 {
        Some(Err(StoreError::Decode(DecodeError::Malformed)))
    } else if !pool.table@.contains_key(page) {
        if page < 0 || page >= pool.next_page {
            Some(Err(StoreError::NotFound))
        } else {
            None
        }
    } else {
        let f = pool.frames@[pool.table@[page] as int];
        if f.pins == i32::MAX {
            Some(Err(StoreError::CapacityExceeded))
        } else {
            match parse(f.page@) {
                None => Some(Err(StoreError::Decode(DecodeError::Malformed))),
                Some(v) => if !v.wf_shape() {
                    Some(Err(StoreError::Decode(DecodeError::Malformed)))
                } else {
                    match step_of(v, key) {
                        Step::MoveRight(p) => walk(pool, p.page_no, key, (fuel - 1) as nat),
                        Step::Descend(p) => walk(pool, p.page_no, key, (fuel - 1) as nat),
                        Step::Found(p) => Some(Ok(Some(p))),
                        Step::NotFound => Some(Ok(None)),
                    }
                },
            }
        }
    }
}

/// The node that resident page `page` holds, or the error that loading it comes to, where
/// that is decided without the file (as in `walk`).
pub open spec fn resident_load(pool: &BufferPool, page: i32) -> Option<Result<NodeView, StoreError>> {
    if !pool.table@.contains_key(page) {
        if page < 0 || page >= pool.next_page {
            Some(Err(StoreError::NotFound))
        } else {
            None
        }
    } else {
        let f = pool.frames@[pool.table@[page] as int];
        if f.pins == i32::MAX {
            Some(Err(StoreError::CapacityExceeded))
        } else {
            match parse(f.page@) {
                None => Some(Err(StoreError::Decode(DecodeError::Malformed))),
                Some(v) => if !v.wf_shape() {
                    Some(Err(StoreError::Decode(DecodeError::Malformed)))
                } else {
                    Some(Ok(v))
                },
            }
        }
    }
}

/// The leaf that a descent for `key` from `page` comes to over resident frames, with its
/// page, or the error that it comes to there: as `walk`, and a node over its capacity is
/// damaged.
pub open spec fn reach(pool: &BufferPool, page: i32, key: u32, fuel: nat) -> Option<
    Result<(i32, NodeView), StoreError>,
>
    decreases fuel,
{
    if fuel == 0 {
        Some(Err(StoreError::Decode(DecodeError::Malformed)))
    } else {
        match resident_load(pool, page) {
            None => None,
            Some(Err(e)) => Some(Err(e)),
            Some(Ok(v)) => if v.overfull() {
                Some(Err(StoreError::Decode(DecodeError::Malformed)))
            } else {
                match step_of(v, key) {
                    Step::MoveRight(p) => reach(pool, p.page_no, key, (fuel - 1) as nat),
                    Step::Descend(p) => reach(pool, p.page_no, key, (fuel - 1) as nat),
                    _ => Some(Ok((page, v))),
                }
            },
        }
    }
}

/// Leaf `v` takes one more entry without reaching its order, and its page image still fits.
pub open spec fn has_room(v: NodeView) -> bool {
    &&& v.keys.len() < v.order
    &&& HEADER_SIZE + 8 * (v.keys.len() + 1) <= PAGE_SIZE
}

/// `after` is `before` with only the bytes and the dirty flag of frame `l` changed.
pub open spec fn only_page_changed(before: &BufferPool, after: &BufferPool, l: int) -> bool {
    &&& after.table@ == before.table@
    &&& after.next_page == before.next_page
    &&& after.frames@.len() == before.frames@.len()
    &&& 0 <= l < before.frames@.len()
    &&& after.frames@[l].pins == before.frames@[l].pins
    &&& after.frames@[l].page_no == before.frames@[l].page_no
    &&& forall|j: int| 0 <= j < before.frames@.len() && j != l ==> after.frames@[j] == before.frames@[j]
}

/// Where a descent for `key` reaches leaf page `p`, and that page alone is then rewritten
/// with a leaf that covers `key` and pairs it with `value`, a search from the same page
/// finds `value`.
pub proof fn lemma_walk_finds_written_record(
    before: &BufferPool,
    after: &BufferPool,
    page: i32,
    key: u32,
    fuel: nat,
    p: i32,
    v: NodeView,
    w: NodeView,
    value: ItemPtr,
)
    requires
        before.wf(),
        reach(before, page, key, fuel) == Some(Ok::<(i32, NodeView), StoreError>((p, v))),
        before.table@.contains_key(p),
        only_page_changed(before, after, before.table@[p] as int),
        parse(after.frames@[before.table@[p] as int].page@) == Some(w),
        w.wf_shape(),
        w.leaf,
        !must_move_right(w, key),
        exists|j: int| 0 <= j < w.keys.len() && w.keys[j] == key && w.children[j] == value,
    ensures
        walk(after, page, key, fuel) == Some(Ok::<Option<ItemPtr>, StoreError>(Some(value))),
    decreases fuel,
{
    if fuel > 0 {
        let l = before.table@[p];
        assert(before.table@.contains_key(page));
        let k = before.table@[page];
        if page == p {
            let j = choose|j: int| 0 <= j < w.keys.len() && w.keys[j] == key && w.children[j] == value;
            assert(is_slot(w.keys, key, j));
            let c = choose|i: int| is_slot(w.keys, key, i);
            lemma_slot_unique(w.keys, key, j, c);
            assert(step_of(w, key) == Step::Found(value));
        } else {
            assert(before.frames@[k as int].page_no == page);
            assert(before.frames@[l as int].page_no == p);
            assert(k != l);
            assert(after.frames@[k as int] == before.frames@[k as int]);
            let u = parse(before.frames@[k as int].page@)->Some_0;
            match step_of(u, key) {
                Step::MoveRight(q) => {
                    lemma_walk_finds_written_record(before, after, q.page_no, key, (fuel - 1) as nat, p, v, w, value);
                },
                Step::Descend(q) => {
                    lemma_walk_finds_written_record(before, after, q.page_no, key, (fuel - 1) as nat, p, v, w, value);
                },
                _ => {},
            }
        }
    }
}

/// The page of the leftmost leaf below `page`, reached through first children over resident
/// frames in at most `fuel` pages.
pub open spec fn leftmost(pool: &BufferPool, page: i32, fuel: nat) -> Option<Result<i32, StoreError>>
    decreases fuel,
{
    if fuel == 0 {
        Some(Err(StoreError::Decode(DecodeError::Malformed)))
    } else {
        match resident_load(pool, page) {
            None => None,
            Some(Err(e)) => Some(Err(e)),
            Some(Ok(v)) => if v.leaf {
                Some(Ok(page))
            } else {
                leftmost(pool, v.children[0].page_no, (fuel - 1) as nat)
            },
        }
    }
}

/// The keys of the leaves from `page` rightwards along the links to the last leaf, over
/// resident frames in at most `fuel` pages.
pub open spec fn chain_keys(pool: &BufferPool, page: i32, fuel: nat) -> Option<
    Result<Seq<u32>, StoreError>,
>
    decreases fuel,
{
    if fuel == 0 {
        Some(Err(StoreError::Decode(DecodeError::Malformed)))
    } else {
        match resident_load(pool, page) {
            None => None,
            Some(Err(e)) => Some(Err(e)),
            Some(Ok(v)) => if v.link.spec_is_null() {
                Some(Ok(v.keys))
            } else {
                match chain_keys(pool, v.link.page_no, (fuel - 1) as nat) {
                    Some(Ok(rest)) => Some(Ok(v.keys + rest)),
                    other => other,
                }
            },
        }
    }
}

/// `chain` continued by the keys `out` gathered so far: what a scan that has gathered `out`
/// and goes on from a page whose chain is `chain` comes to.
pub open spec fn after_prefix(out: Seq<u32>, chain: Option<Result<Seq<u32>, StoreError>>) -> Option<
    Result<Seq<u32>, StoreError>,
> {
    match chain {
        Some(Ok(rest)) => Some(Ok(out + rest)),
        other => other,
    }
}

/// What a scan of all leaves of the tree rooted at `root` comes to over resident frames.
pub open spec fn scan(pool: &BufferPool, root: i32, fuel: nat) -> Option<Result<Seq<u32>, StoreError>> {
    match leftmost(pool, root, fuel) {
        None => None,
        Some(Err(e)) => Some(Err(e)),
        Some(Ok(l)) => chain_keys(pool, l, fuel),
    }
}

/// Pins page `page_no` and reads the node it holds; the page stays pinned only on success.
fn load<F: PagedFile>(pool: &mut BufferPool, file: &mut F, page_no: i32) -> (r: Result<
    (usize, Node),
    StoreError,
>)
    requires
        old(pool).wf(),
    ensures
        final(pool).wf(),
        final(pool).next_page == old(pool).next_page,
        match r {
            Ok((i, n)) => {
                &&& i < final(pool).frames@.len()
                &&& final(pool).frames@[i as int].page_no == page_no
                &&& final(pool).table@.contains_key(page_no)
                &&& final(pool).table@[page_no] == i
                &&& final(pool).frames@[i as int].pins >= 1
                &&& parse(final(pool).frames@[i as int].page@) == Some(n@)
                &&& n@.wf_shape()
                &&& final(pool).frames@.len() == old(pool).frames@.len()
                &&& final(pool).frames@[i as int].pins == old(pool).frames@[i as int].pins + 1
                &&& forall|j: int|
                    0 <= j < final(pool).frames@.len() && j != i ==> (#[trigger] final(pool).frames@[j]).pins
                        == old(pool).frames@[j].pins
            },
            Err(_) => old(pool).same_pins(final(pool)),
        },
        !old(pool).table@.contains_key(page_no) && (page_no < 0 || page_no
            >= old(pool).next_page) ==> r is Err && r->Err_0 == StoreError::NotFound
            && final(pool).frames@ == old(pool).frames@ && final(pool).table@ == old(pool).table@,
        old(pool).table@.contains_key(page_no) ==> ({
            let i = old(pool).table@[page_no];
            let f = old(pool).frames@[i as int];
            &&& final(pool).table@ == old(pool).table@
            &&& f.pins == i32::MAX ==> r is Err && r->Err_0 == StoreError::CapacityExceeded
                && final(pool).frames@ == old(pool).frames@
            &&& f.pins < i32::MAX && (parse(f.page@) is None || !parse(f.page@)->Some_0.wf_shape())
                ==> r is Err && r->Err_0 == StoreError::Decode(DecodeError::Malformed)
                && final(pool).frames@ == old(pool).frames@
            &&& f.pins < i32::MAX && parse(f.page@) is Some && parse(f.page@)->Some_0.wf_shape()
                ==> r is Ok && r->Ok_0.0 == i && r->Ok_0.1@ == parse(f.page@)->Some_0
                && final(pool).frames@ == old(pool).frames@.update(
                i as int,
                BufferPoolFrame { pins: (f.pins + 1) as i32, ..f },
            )
        }),
{
    let i = match pool.fetch(file, page_no) {
        Ok(i) => i,
        Err(e) => {
            return Err(e);
        },
    };
    let ghost pinned = *pool;
    let n = match pool.read_node(i) {
        Ok(n) => n,
        Err(e) => {
            let _ = pool.unpin(page_no, false);
            proof {
                if old(pool).table@.contains_key(page_no) {
                    assert(pool.frames@[i as int] == old(pool).frames@[i as int]);
                    assert(pool.frames@ =~= old(pool).frames@);
                }
            }
            return Err(e);
        },
    };
    if !n.check_shape() {
        let _ = pool.unpin(page_no, false);
        proof {
            if old(pool).table@.contains_key(page_no) {
                assert(pool.frames@[i as int] == old(pool).frames@[i as int]);
                assert(pool.frames@ =~= old(pool).frames@);
            }
        }
        return Err(StoreError::Decode(DecodeError::Malformed));
    }
    Ok((i, n))
}

/// Facts about frame `i` that a caller holding a pin on page `page_no` relies on.
pub open spec fn pinned_at(pool: &BufferPool, i: usize, page_no: i32) -> bool {
    &&& i < pool.frames@.len()
    &&& page_no >= 0
    &&& pool.frames@[i as int].page_no == page_no
    &&& pool.frames@[i as int].pins >= 1
}

/// `after` has the frames of `before`, with frame `i` pinned once more and the others as
/// often as before.
pub open spec fn pinned_once_more(before: &BufferPool, after: &BufferPool, i: usize) -> bool {
    &&& after.frames@.len() == before.frames@.len()
    &&& i < after.frames@.len()
    &&& after.frames@[i as int].pins == before.frames@[i as int].pins + 1
    &&& forall|j: int|
        0 <= j < after.frames@.len() && j != i ==> (#[trigger] after.frames@[j]).pins
            == before.frames@[j].pins
}

/// The largest order whose full nodes fit a page: a leaf of 60 entries takes 505 bytes, an
/// internal node of 60 separators and 61 children 509.
pub const MAX_ORDER: u32 = 60;

/// A B-link tree whose nodes live in pages: the page of its root and the order of its nodes.
pub struct BTree {
    pub root: ItemPtr,
    pub order: u32,
}

impl BTree {
    /// A tree of one empty leaf, written to a new page. An order above `MAX_ORDER` is
    /// refused: its full nodes would not fit a page.
    pub fn create<F: PagedFile>(pool: &mut BufferPool, file: &mut F, order: u32) -> (r: Result<
        BTree,
        StoreError,
    >)
        requires
            old(pool).wf(),
            order >= 1,
        ensures
            final(pool).wf(),
            old(pool).same_pins(final(pool)),
            order > MAX_ORDER ==> r == Err::<BTree, StoreError>(
                StoreError::Encode(EncodeError::CapacityExceeded),
            ),
            order <= MAX_ORDER && old(pool).next_page < i32::MAX && (exists|j: int|
                0 <= j < old(pool).frames@.len() && (#[trigger] old(pool).frames@[j]).is_free())
                ==> r is Ok,
            match r {
                Ok(t) => {
                    &&& t.order == order
                    &&& t.root.page_no == old(pool).next_page
                    &&& final(pool).table@.contains_key(t.root.page_no)
                    &&& parse(final(pool).frames@[final(pool).table@[t.root.page_no] as int].page@)
                        == Some(empty_leaf_view(order, t.root))
                },
                Err(_) => true,
            },
    {
        if order > MAX_ORDER {
            return Err(StoreError::Encode(EncodeError::CapacityExceeded));
        }
        let (p, i) = match pool.allocate_new(file) {
            Ok(a) => a,
            Err(e) => {
                return Err(e);
            },
        };
        let leaf = Node::empty_leaf(order, p);
        let w = pool.write_node(i, &leaf);
        let ghost written = *pool;
        let u = pool.unpin(p.page_no, true);
        proof {
            lemma_round_trip(leaf@);
            if w is Ok {
                assert(pool.frames@[i as int].page == written.frames@[i as int].page);
            }
        }
        match w {
            Err(e) => {
                return Err(e);
            },
            Ok(_) => {},
        }
        match u {
            Err(e) => {
                return Err(e);
            },
            Ok(_) => {},
        }
        Ok(BTree { root: p, order })
    }

    /// Searches for `key` from the root, moving right wherever the key lies above a node's
    /// high key and descending otherwise. Holds at most one pin at a time. A found record
    /// pointer, or the absence of the key, is what a resident leaf that covers the key says.
    pub fn search<F: PagedFile>(&self, pool: &mut BufferPool, file: &mut F, key: u32) -> (r:
        Result<Option<ItemPtr>, StoreError>)
        requires
            old(pool).wf(),
        ensures
            final(pool).wf(),
            final(pool).next_page == old(pool).next_page,
            old(pool).same_pins(final(pool)),
            walk(old(pool), self.root.page_no, key, (old(pool).next_page + 1) as nat) matches Some(
                res,
            ) ==> r == res,
            match r {
                Ok(ans) => exists|v: NodeView| #[trigger]
                    resident_node(final(pool), v) && leaf_answer(v, key, ans),
                Err(_) => true,
            },
    {
        let ghost fuel0 = (old(pool).next_page + 1) as nat;
        let ghost target = walk(old(pool), self.root.page_no, key, fuel0);
        let mut cur = self.root.page_no;
        let limit = pool.next_page as u64;
        let mut steps: u64 = 0;
        while steps <= limit
            invariant
                pool.wf(),
                pool.next_page == old(pool).next_page,
                old(pool).same_pins(pool),
                limit <= i32::MAX,
                limit == old(pool).next_page,
                fuel0 == limit + 1,
                steps <= limit + 1,
                target == walk(old(pool), self.root.page_no, key, fuel0),
                target is Some ==> {
                    &&& pool.frames@ == old(pool).frames@
                    &&& pool.table@ == old(pool).table@
                    &&& walk(old(pool), cur, key, (fuel0 - steps) as nat) == target
                },
            decreases limit + 1 - steps,
        {
            let (i, n) = match load(pool, file, cur) {
                Ok(x) => x,
                Err(e) => {
                    return Err(e);
                },
            };
            match pool.unpin(cur, false) {
                Ok(_) => {},
                Err(e) => {
                    return Err(e);
                },
            }
            proof {
                if target is Some {
                    assert(pool.frames@[i as int] == old(pool).frames@[i as int]);
                    assert(pool.frames@ =~= old(pool).frames@);
                }
            }
            assert(parse(pool.frames@[i as int].page@) == Some(n@));
            match n.search_step(key) {
                Step::MoveRight(p) => {
                    cur = p.page_no;
                },
                Step::Descend(p) => {
                    cur = p.page_no;
                },
                Step::Found(p) => {
                    assert(resident_node(pool, n@));
                    assert(leaf_answer(n@, key, Some(p)));
                    return Ok(Some(p));
                },
                Step::NotFound => {
                    assert(resident_node(pool, n@));
                    assert(leaf_answer(n@, key, None));
                    return Ok(None);
                },
            }
            steps = steps + 1;
        }
        Err(StoreError::Decode(DecodeError::Malformed))
    }

    /// The page of the leftmost leaf: reached from the root through first children.
    fn leftmost_leaf<F: PagedFile>(&self, pool: &mut BufferPool, file: &mut F) -> (r: Result<
        i32,
        StoreError,
    >)
        requires
            old(pool).wf(),
        ensures
            final(pool).wf(),
            final(pool).next_page == old(pool).next_page,
            old(pool).same_pins(final(pool)),
            leftmost(old(pool), self.root.page_no, (old(pool).next_page + 1) as nat) matches Some(
                res,
            ) ==> r == res && final(pool).frames@ == old(pool).frames@ && final(pool).table@
                == old(pool).table@,
    {
        let ghost fuel0 = (old(pool).next_page + 1) as nat;
        let ghost target = leftmost(old(pool), self.root.page_no, fuel0);
        let mut cur = self.root.page_no;
        let limit = pool.next_page as u64;
        let mut steps: u64 = 0;
        while steps <= limit
            invariant
                pool.wf(),
                pool.next_page == old(pool).next_page,
                old(pool).same_pins(pool),
                limit <= i32::MAX,
                limit == old(pool).next_page,
                fuel0 == limit + 1,
                steps <= limit + 1,
                target == leftmost(old(pool), self.root.page_no, fuel0),
                target is Some ==> {
                    &&& pool.frames@ == old(pool).frames@
                    &&& pool.table@ == old(pool).table@
                    &&& leftmost(old(pool), cur, (fuel0 - steps) as nat) == target
                },
            decreases limit + 1 - steps,
        {
            let (i, n) = match load(pool, file, cur) {
                Ok(x) => x,
                Err(e) => {
                    return Err(e);
                },
            };
            match pool.unpin(cur, false) {
                Ok(_) => {},
                Err(e) => {
                    return Err(e);
                },
            }
            proof {
                if target is Some {
                    assert(pool.frames@[i as int] == old(pool).frames@[i as int]);
                    assert(pool.frames@ =~= old(pool).frames@);
                }
            }
            if n.leaf {
                return Ok(cur);
            }
            cur = n.children[0].page_no;
            steps = steps + 1;
        }
        Err(StoreError::Decode(DecodeError::Malformed))
    }

    /// The keys of all leaves in the order that the leaf links give, from the leftmost leaf
    /// to the last.
    pub fn keys<F: PagedFile>(&self, pool: &mut BufferPool, file: &mut F) -> (r: Result<
        Vec<u32>,
        StoreError,
    >)
        requires
            old(pool).wf(),
        ensures
            final(pool).wf(),
            final(pool).next_page == old(pool).next_page,
            old(pool).same_pins(final(pool)),
            scan(old(pool), self.root.page_no, (old(pool).next_page + 1) as nat) matches Some(res)
                ==> match res {
                Ok(s) => r is Ok && r->Ok_0@ == s,
                Err(e) => r is Err && r->Err_0 == e,
            },
    {
        let ghost fuel0 = (old(pool).next_page + 1) as nat;
        let ghost target = scan(old(pool), self.root.page_no, fuel0);
        let mut cur = match self.leftmost_leaf(pool, file) {
            Ok(p) => p,
            Err(e) => {
                return Err(e);
            },
        };
        let mut out: Vec<u32> = Vec::new();
        let limit = pool.next_page as u64;
        let mut steps: u64 = 0;
        assert(out@ + Seq::<u32>::empty() =~= Seq::<u32>::empty());
        while steps <= limit
            invariant
                pool.wf(),
                pool.next_page == old(pool).next_page,
                old(pool).same_pins(pool),
                limit <= i32::MAX,
                limit == old(pool).next_page,
                fuel0 == limit + 1,
                steps <= limit + 1,
                target == scan(old(pool), self.root.page_no, fuel0),
                target is Some ==> {
                    &&& pool.frames@ == old(pool).frames@
                    &&& pool.table@ == old(pool).table@
                    &&& after_prefix(out@, chain_keys(old(pool), cur, (fuel0 - steps) as nat))
                        == target
                },
            decreases limit + 1 - steps,
        {
            let ghost gathered = out@;
            let (i, n) = match load(pool, file, cur) {
                Ok(x) => x,
                Err(e) => {
                    return Err(e);
                },
            };
            match pool.unpin(cur, false) {
                Ok(_) => {},
                Err(e) => {
                    return Err(e);
                },
            }
            proof {
                if target is Some {
                    assert(pool.frames@[i as int] == old(pool).frames@[i as int]);
                    assert(pool.frames@ =~= old(pool).frames@);
                }
            }
            let mut j: usize = 0;
            while j < n.keys.len()
                invariant
                    j <= n.keys@.len(),
                    out@ == gathered + n.keys@.subrange(0, j as int),
                decreases n.keys@.len() - j,
            {
                out.push(n.keys[j]);
                proof {
                    assert(gathered + n.keys@.subrange(0, j + 1) =~= (gathered + n.keys@.subrange(
                        0,
                        j as int,
                    )).push(n.keys@[j as int]));
                }
                j = j + 1;
            }
            assert(n.keys@.subrange(0, n.keys@.len() as int) =~= n.keys@);
            proof {
                if target is Some {
                    let c = chain_keys(old(pool), n.link.page_no, (fuel0 - steps - 1) as nat);
                    if let Some(Ok(rest)) = c {
                        assert(gathered + (n.keys@ + rest) =~= out@ + rest);
                    }
                    if n.link.spec_is_null() {
                        assert(gathered + n.keys@ =~= out@);
                    }
                }
            }
            if n.link.is_null() {
                return Ok(out);
            }
            cur = n.link.page_no;
            steps = steps + 1;
        }
        Err(StoreError::Decode(DecodeError::Malformed))
    }

    /// Descends from the root to the leaf that covers `key`, as `search` does, and returns
    /// it pinned, with the page and frame that hold it. `path` gets the page of each node
    /// that the descent left downwards, top first.
    fn descend<F: PagedFile>(
        &self,
        pool: &mut BufferPool,
        file: &mut F,
        key: u32,
        path: &mut Vec<i32>,
    ) -> (r: Result<(i32, usize, Node), StoreError>)
        requires
            old(pool).wf(),
        ensures
            final(pool).wf(),
            final(pool).next_page == old(pool).next_page,
            match r {
                Ok((p, i, n)) => {
                    &&& pinned_at(final(pool), i, p)
                    &&& n@.wf()
                    &&& pinned_once_more(old(pool), final(pool), i)
                    &&& n.leaf
                    &&& !must_move_right(n@, key)
                },
                Err(_) => old(pool).same_pins(final(pool)),
            },
            reach(old(pool), self.root.page_no, key, (old(pool).next_page + 1) as nat) matches Some(
                res,
            ) ==> match res {
                Ok((p, v)) => r is Ok && r->Ok_0.0 == p && r->Ok_0.2@ == v && r->Ok_0.1
                    == old(pool).table@[p] && final(pool).table@ == old(pool).table@
                    && final(pool).frames@ == old(pool).frames@.update(
                    r->Ok_0.1 as int,
                    BufferPoolFrame {
                        pins: (old(pool).frames@[r->Ok_0.1 as int].pins + 1) as i32,
                        ..old(pool).frames@[r->Ok_0.1 as int]
                    },
                ),
                Err(e) => r is Err && r->Err_0 == e,
            },
    {
        let ghost fuel0 = (old(pool).next_page + 1) as nat;
        let ghost target = reach(old(pool), self.root.page_no, key, fuel0);
        let mut cur = self.root.page_no;
        let limit = pool.next_page as u64;
        let mut steps: u64 = 0;
        while steps <= limit
            invariant
                pool.wf(),
                pool.next_page == old(pool).next_page,
                old(pool).same_pins(pool),
                limit <= i32::MAX,
                limit == old(pool).next_page,
                fuel0 == limit + 1,
                steps <= limit + 1,
                target == reach(old(pool), self.root.page_no, key, fuel0),
                target is Some ==> {
                    &&& pool.frames@ == old(pool).frames@
                    &&& pool.table@ == old(pool).table@
                    &&& reach(old(pool), cur, key, (fuel0 - steps) as nat) == target
                },
            decreases limit + 1 - steps,
        {
            let (i, n) = match load(pool, file, cur) {
                Ok(x) => x,
                Err(e) => {
                    return Err(e);
                },
            };
            if n.needs_split() {
                let _ = pool.unpin(cur, false);
                proof {
                    if target is Some {
                        assert(pool.frames@[i as int] == old(pool).frames@[i as int]);
                        assert(pool.frames@ =~= old(pool).frames@);
                    }
                }
                return Err(StoreError::Decode(DecodeError::Malformed));
            }
            match n.search_step(key) {
                Step::MoveRight(p) => {
                    match pool.unpin(cur, false) {
                        Ok(_) => {},
                        Err(e) => {
                            return Err(e);
                        },
                    }
                    proof {
                        if target is Some {
                            assert(pool.frames@[i as int] == old(pool).frames@[i as int]);
                            assert(pool.frames@ =~= old(pool).frames@);
                        }
                    }
                    cur = p.page_no;
                },
                Step::Descend(p) => {
                    match pool.unpin(cur, false) {
                        Ok(_) => {},
                        Err(e) => {
                            return Err(e);
                        },
                    }
                    proof {
                        if target is Some {
                            assert(pool.frames@[i as int] == old(pool).frames@[i as int]);
                            assert(pool.frames@ =~= old(pool).frames@);
                        }
                    }
                    path.push(cur);
                    cur = p.page_no;
                },
                _ => {
                    return Ok((cur, i, n));
                },
            }
            steps = steps + 1;
        }
        Err(StoreError::Decode(DecodeError::Malformed))
    }

    /// Pins the internal node that is to take the separator `sep`: the node on page
    /// `page_no`, or the first node to its right whose range holds `sep`.
    fn locate_parent<F: PagedFile>(
        pool: &mut BufferPool,
        file: &mut F,
        page_no: i32,
        sep: u32,
    ) -> (r: Result<(i32, usize, Node), StoreError>)
        requires
            old(pool).wf(),
        ensures
            final(pool).wf(),
            final(pool).next_page == old(pool).next_page,
            match r {
                Ok((p, i, n)) => {
                    &&& pinned_at(final(pool), i, p)
                    &&& n@.wf()
                    &&& pinned_once_more(old(pool), final(pool), i)
                    &&& !n.leaf
                    &&& !must_move_right(n@, sep)
                },
                Err(_) => old(pool).same_pins(final(pool)),
            },
    {
        let mut cur = page_no;
        let limit = pool.next_page as u64;
        let mut steps: u64 = 0;
        while steps <= limit
            invariant
                pool.wf(),
                pool.next_page == old(pool).next_page,
                old(pool).same_pins(pool),
                limit <= i32::MAX,
                steps <= limit + 1,
            decreases limit + 1 - steps,
        {
            let (i, n) = match load(pool, file, cur) {
                Ok(x) => x,
                Err(e) => {
                    return Err(e);
                },
            };
            if n.needs_split() || n.leaf {
                let _ = pool.unpin(cur, false);
                return Err(StoreError::Decode(DecodeError::Malformed));
            }
            if !n.link.is_null() && (n.keys.len() == 0 || sep > n.high_key) {
                match pool.unpin(cur, false) {
                    Ok(_) => {},
                    Err(e) => {
                        return Err(e);
                    },
                }
                cur = n.link.page_no;
            } else {
                return Ok((cur, i, n));
            }
            steps = steps + 1;
        }
        Err(StoreError::Decode(DecodeError::Malformed))
    }

    /// Splits the overfull `node`, which frame `i` holds pinned as page `cur`: the new right
    /// node goes to a new page, which is written to `file` before the node on `cur` links
    /// to it. Returns the new page; the pin on `cur` is released either way.
    fn split_and_persist<F: PagedFile>(
        pool: &mut BufferPool,
        file: &mut F,
        cur: i32,
        i: usize,
        node: &mut Node,
    ) -> (r: Result<ItemPtr, StoreError>)
        requires
            old(pool).wf(),
            pinned_at(old(pool), i, cur),
            old(node)@.wf_shape(),
            2 <= old(node).keys@.len() <= old(node).order + 1,
        ensures
            final(pool).wf(),
            final(pool).next_page >= old(pool).next_page,
            final(pool).frames@.len() == old(pool).frames@.len(),
            final(pool).frames@[i as int].pins == old(pool).frames@[i as int].pins - 1,
            forall|j: int|
                0 <= j < final(pool).frames@.len() && j != i ==> (#[trigger] final(pool).frames@[j]).pins
                    == old(pool).frames@[j].pins,
            r is Ok ==> final(pool).next_page > old(pool).next_page && final(node)@.wf(),
    {
        let (rp, ri) = match pool.allocate_new(file) {
            Ok(a) => a,
            Err(e) => {
                let _ = pool.unpin(cur, false);
                return Err(e);
            },
        };
        let right = node.split(rp);
        match pool.write_node(ri, &right) {
            Ok(_) => {},
            Err(e) => {
                let _ = pool.unpin(rp.page_no, false);
                let _ = pool.unpin(cur, false);
                return Err(e);
            },
        }
        match pool.flush(file, rp.page_no) {
            Ok(_) => {},
            Err(e) => {
                let _ = pool.unpin(rp.page_no, false);
                let _ = pool.unpin(cur, false);
                return Err(e);
            },
        }
        let w = pool.write_node(i, node);
        let u1 = pool.unpin(rp.page_no, false);
        let u2 = pool.unpin(cur, w.is_ok());
        match (w, u1, u2) {
            (Err(e), _, _) => {
                return Err(e);
            },
            (_, Err(e), _) => {
                return Err(e);
            },
            (_, _, Err(e)) => {
                return Err(e);
            },
            _ => {},
        }
        Ok(rp)
    }

    /// Inserts `key` with record pointer `value` (replacing the record of a key that is
    /// there). A full leaf is split: the new right node is written to its page before the
    /// left node links to it, and the separator goes up into the parent the same way, level
    /// by level, with one node held at a time; a split of the top level makes a new root.
    pub fn insert<F: PagedFile>(
        &mut self,
        pool: &mut BufferPool,
        file: &mut F,
        key: u32,
        value: ItemPtr,
    ) -> (r: Result<(), StoreError>)
        requires
            old(pool).wf(),
            old(self).order >= 1,
        ensures
            final(pool).wf(),
            final(self).order == old(self).order,
            old(pool).same_pins(final(pool)),
            final(pool).next_page >= old(pool).next_page,
            final(self).root == old(self).root || final(self).root.page_no >= old(pool).next_page,
            r is Ok && final(pool).next_page == old(pool).next_page ==> exists|v: NodeView| #[trigger]
                resident_node(final(pool), v) && leaf_answer(v, key, Some(value)),
            reach(old(pool), old(self).root.page_no, key, (old(pool).next_page + 1) as nat) matches Some(
                Ok((p, v)),
            ) && has_room(v) ==> {
                &&& r is Ok
                &&& final(self).root == old(self).root
                &&& walk(final(pool), final(self).root.page_no, key, (old(pool).next_page + 1) as nat)
                    == Some(Ok::<Option<ItemPtr>, StoreError>(Some(value)))
            },
            reach(old(pool), old(self).root.page_no, key, (old(pool).next_page + 1) as nat) matches Some(
                Err(e),
            ) ==> r is Err && r->Err_0 == e,
    {
        let mut path: Vec<i32> = Vec::new();
        let (mut cur, mut i, mut node) = match self.descend(pool, file, key, &mut path) {
            Ok(x) => x,
            Err(e) => {
                return Err(e);
            },
        };
        let ghost before = node@;
        let ghost fuel0 = (old(pool).next_page + 1) as nat;
        let ghost target = reach(old(pool), self.root.page_no, key, fuel0);
        node.insert_record(key, value);
        proof {
            if let Some(Ok((tp, tv))) = target {
                let j = choose|j: int| #[trigger] record_put(before, node@, key, value, j);
                assert(before == tv);
                assert(node.keys@.len() <= tv.keys.len() + 1);
                if has_room(tv) {
                    assert(node.keys@.len() == node.children@.len());
                    assert(fits_page(node@));
                }
            }
        }
        if !node.needs_split() {
            let w = pool.write_node(i, &node);
            let ghost written = *pool;
            let u = pool.unpin(cur, w.is_ok());
            proof {
                if w is Ok {
                    if let Some(Ok((tp, tv))) = target {
                        let j = choose|j: int| #[trigger] record_put(before, node@, key, value, j);
                        assert(node@.keys[j] == key && node@.children[j] == value);
                        assert(node@.keys.contains(key));
                        lemma_round_trip(node@);
                        assert(pool.frames@[i as int].page == written.frames@[i as int].page);
                        assert(only_page_changed(old(pool), pool, i as int));
                        lemma_walk_finds_written_record(
                            old(pool),
                            pool,
                            self.root.page_no,
                            key,
                            fuel0,
                            tp,
                            tv,
                            node@,
                            value,
                        );
                    }
                    lemma_round_trip(node@);
                    assert(written.frames@[i as int].page@ == page_image(node@));
                    assert(pool.frames@[i as int].page == written.frames@[i as int].page);
                    assert(resident_node(pool, node@));
                    let j = choose|j: int| #[trigger] record_put(before, node@, key, value, j);
                    assert(node@.keys[j] == key && node@.children[j] == value);
                    assert(node@.keys.contains(key));
                    assert(leaf_answer(node@, key, Some(value)));
                }
            }
            return match (w, u) {
                (Err(e), _) => Err(e),
                (_, Err(e)) => Err(e),
                _ => Ok(()),
            };
        }
        loop
            invariant
                pool.wf(),
                self.order >= 1,
                self.order == old(self).order,
                pinned_at(pool, i, cur),
                pinned_once_more(old(pool), pool, i),
                pool.next_page >= old(pool).next_page,
                self.root == old(self).root,
                target == reach(old(pool), old(self).root.page_no, key, fuel0),
                fuel0 == (old(pool).next_page + 1) as nat,
                !(target matches Some(Ok((p, v))) && has_room(v)),
                !(target matches Some(Err(_))),
                node@.wf_shape(),
                2 <= node.keys@.len() <= node.order + 1,
            decreases path@.len(),
        {
            let rp = match BTree::split_and_persist(pool, file, cur, i, &mut node) {
                Ok(p) => p,
                Err(e) => {
                    return Err(e);
                },
            };
            let sep = node.high_key;
            match path.pop() {
                None => {
                    let (qp, qi) = match pool.allocate_new(file) {
                        Ok(a) => a,
                        Err(e) => {
                            return Err(e);
                        },
                    };
                    let root = Node::new_root(self.order, qp, ItemPtr::new(cur), sep, rp);
                    let w = pool.write_node(qi, &root);
                    let u = pool.unpin(qp.page_no, w.is_ok());
                    match (w, u) {
                        (Err(e), _) => {
                            return Err(e);
                        },
                        (_, Err(e)) => {
                            return Err(e);
                        },
                        _ => {},
                    }
                    self.root = qp;
                    return Ok(());
                },
                Some(up) => {
                    let (pp, pi, mut parent) = match BTree::locate_parent(pool, file, up, sep) {
                        Ok(x) => x,
                        Err(e) => {
                            return Err(e);
                        },
                    };
                    if !parent.insert_separator(sep, rp) {
                        // the parent names the separator already: the tree is damaged
                        let _ = pool.unpin(pp, false);
                        return Err(StoreError::Decode(DecodeError::Malformed));
                    }
                    if !parent.needs_split() {
                        let w = pool.write_node(pi, &parent);
                        let u = pool.unpin(pp, w.is_ok());
                        return match (w, u) {
                            (Err(e), _) => Err(e),
                            (_, Err(e)) => Err(e),
                            _ => Ok(()),
                        };
                    }
                    cur = pp;
                    i = pi;
                    node = parent;
                },
            }
        }
    }
}

} // verus!
