use vstd::prelude::*;

use crate::ptr::ItemPtr;

verus! {

/// `s` is strictly ascending.
pub open spec fn strictly_ascending(s: Seq<u32>) -> bool {
    forall|i: int, j: int| 0 <= i < j < s.len() ==> s[i] < s[j]
}

/// `m` is the largest element of `s`.
pub open spec fn is_max_of(m: u32, s: Seq<u32>) -> bool {
    &&& s.contains(m)
    &&& forall|i: int| 0 <= i < s.len() ==> s[i] <= m
}

/// The mathematical value of a node: its fields, with the vectors seen as sequences.
pub struct NodeView {
    pub leaf: bool,
    pub order: u32,
    pub loc: ItemPtr,
    pub link: ItemPtr,
    pub high_key: u32,
    pub keys: Seq<u32>,
    pub children: Seq<ItemPtr>,
}

impl NodeView {
    /// Keys ascend, the high key is their maximum, and the children match the keys.
    /// A node may hold one entry over its order between an insertion and the split that
    /// follows it.
    pub open spec fn wf_shape(&self) -> bool {
        &&& self.order >= 1
        &&& strictly_ascending(self.keys)
        &&& self.keys.len() > 0 ==> is_max_of(self.high_key, self.keys)
        &&& if self.leaf {
            self.children.len() == self.keys.len()
        } else {
            self.children.len() == self.keys.len() + 1
        }
    }

    /// The structural invariant, with the node within its capacity.
    pub open spec fn wf(&self) -> bool {
        &&& self.wf_shape()
        &&& self.keys.len() <= self.order
    }

    /// The node holds more entries than its order allows.
    pub open spec fn overfull(&self) -> bool {
        self.keys.len() > self.order
    }
}

/// The empty leaf of the given order on page `loc`, rightmost on its level.
pub open spec fn empty_leaf_view(order: u32, loc: ItemPtr) -> NodeView {
    NodeView {
        leaf: true,
        order,
        loc,
        link: ItemPtr { page_no: -1i32 },
        high_key: 0,
        keys: Seq::empty(),
        children: Seq::empty(),
    }
}

/// `i` is where `key` belongs in `keys`: every key before it is smaller, and the key at
/// `i`, if any, is not.
pub open spec fn is_slot(keys: Seq<u32>, key: u32, i: int) -> bool {
    &&& 0 <= i <= keys.len()
    &&& forall|j: int| 0 <= j < i ==> keys[j] < key
    &&& i < keys.len() ==> key <= keys[i]
}

/// `new` is `old` with `key` and its record `value` put at slot `i`: in place of the
/// record that the key had, or as a new entry.
pub open spec fn record_put(old: NodeView, new: NodeView, key: u32, value: ItemPtr, i: int) -> bool {
    &&& is_slot(old.keys, key, i)
    &&& if i < old.keys.len() && old.keys[i] == key {
        &&& new.keys == old.keys
        &&& new.children == old.children.update(i, value)
    } else {
        &&& new.keys == old.keys.insert(i, key)
        &&& new.children == old.children.insert(i, value)
    }
}

/// `new` is `old` with the separator `sep` put at slot `i`, followed by the child `right`.
pub open spec fn separator_put(old: NodeView, new: NodeView, sep: u32, right: ItemPtr, i: int) -> bool {
    &&& is_slot(old.keys, sep, i)
    &&& new.keys == old.keys.insert(i, sep)
    &&& new.children == old.children.insert(i + 1, right)
}

/// In ascending keys, a key has one slot.
pub proof fn lemma_slot_unique(keys: Seq<u32>, key: u32, i: int, j: int)
    requires
        strictly_ascending(keys),
        is_slot(keys, key, i),
        is_slot(keys, key, j),
    ensures
        i == j,
{
    if i < j {
        assert(keys[i] < key);
    } else if j < i {
        assert(keys[j] < key);
    }
}

/// What a node tells a search for `key`: move right past the high key where there is a
/// right sibling; else, in a leaf, the record paired with the key or nothing; in an internal
/// node, the child at the key's slot.
pub open spec fn step_of(v: NodeView, key: u32) -> Step {
    if must_move_right(v, key) {
        Step::MoveRight(v.link)
    } else {
        let i = choose|i: int| is_slot(v.keys, key, i);
        if v.leaf {
            if i < v.keys.len() && v.keys[i] == key {
                Step::Found(v.children[i])
            } else {
                Step::NotFound
            }
        } else {
            Step::Descend(v.children[i])
        }
    }
}

/// A search for `key` must leave this node for its right sibling: the node has one, and
/// the key lies above what the node covers.
pub open spec fn must_move_right(v: NodeView, key: u32) -> bool {
    &&& !v.link.spec_is_null()
    &&& (v.keys.len() == 0 || key > v.high_key)
}

/// Where the split of `n` entries divides them: the left node keeps the first `split_point(n)`.
pub open spec fn split_point(n: int) -> int {
    (n + 1) / 2
}

/// One level of a tree, left to right: each node links to the next and the last links
/// nowhere, every node but the last holds keys, and the keys of each node lie above the
/// high keys of the nodes to its left.
pub open spec fn level_ordered(level: Seq<NodeView>) -> bool {
    &&& level.len() > 0
    &&& forall|i: int| 0 <= i < level.len() ==> (#[trigger] level[i]).wf_shape()
    &&& forall|i: int|
        0 <= i < level.len() - 1 ==> (#[trigger] level[i]).link == level[i + 1].loc
            && !level[i].link.spec_is_null() && level[i].keys.len() > 0
    &&& level[level.len() - 1].link.spec_is_null()
    &&& forall|i: int, j: int, t: int|
        0 <= i < j < level.len() && 0 <= t < level[j].keys.len() ==> #[trigger] level[i].high_key
            < #[trigger] level[j].keys[t]
}

/// Moving right finds a key: on a well-ordered level, a search for a key that node `t`
/// holds, started at any node `s` to its left, moves right at every node before `t` (each
/// link leading to the next node) and stops at `t`, which holds the key.
pub proof fn lemma_move_right_reaches_key(level: Seq<NodeView>, s: int, t: int, key: u32)
    requires
        level_ordered(level),
        0 <= s <= t < level.len(),
        level[t].keys.contains(key),
    ensures
        forall|m: int| s <= m < t ==> #[trigger] must_move_right(level[m], key),
        forall|m: int| s <= m < t ==> (#[trigger] level[m]).link == level[m + 1].loc,
        !must_move_right(level[t], key),
{
    let w = choose|w: int| 0 <= w < level[t].keys.len() && level[t].keys[w] == key;
    assert forall|m: int| s <= m < t implies #[trigger] must_move_right(level[m], key) by {
        assert(level[m].high_key < level[t].keys[w]);
        assert(level[m].link == level[m + 1].loc);
    }
    assert forall|m: int| s <= m < t implies (#[trigger] level[m]).link == level[m + 1].loc by {
    }
    assert(level[t].wf_shape());
}

/// What one node tells a search for a key.
#[derive(Clone, Copy, Debug, PartialEq, Eq, Structural)]
pub enum Step {
    /// Continue at the right sibling.
    MoveRight(ItemPtr),
    /// Continue at this child.
    Descend(ItemPtr),
    /// The leaf holds the key, with this record pointer.
    Found(ItemPtr),
    /// The leaf covers the key and does not hold it.
    NotFound,
}

/// A node of a B-link tree.
///
/// In a leaf, `children[i]` is the record pointer paired with `keys[i]`. In an internal node,
/// `children[i]` (for `i < keys.len()`) leads to the subtree whose keys are at most `keys[i]`
/// and above `keys[i - 1]`; the last child holds what lies above the last separator.
/// Keys above `high_key` are found by following `link` to the right sibling.
#[derive(Debug)]
pub struct Node {
    pub leaf: bool,
    pub order: u32,
    pub loc: ItemPtr,
    pub link: ItemPtr,
    pub high_key: u32,
    pub keys: Vec<u32>,
    pub children: Vec<ItemPtr>,
}

impl View for Node {
    type V = NodeView;

    open spec fn view(&self) -> NodeView {
        NodeView {
            leaf: self.leaf,
            order: self.order,
            loc: self.loc,
            link: self.link,
            high_key: self.high_key,
            keys: self.keys@,
            children: self.children@,
        }
    }
}

impl Node {
    /// The structural invariant of a node.
    pub open spec fn wf(&self) -> bool {
        self@.wf()
    }

    /// Builds a leaf from its keys and record pointers; the high key is the largest key.
    pub fn new(
        order: u32,
        loc: ItemPtr,
        link: ItemPtr,
        keys: Vec<u32>,
        children: Vec<ItemPtr>,
    ) -> (r: Self)
        requires
            keys@.len() > 0,
        ensures
            r.leaf,
            r.order == order,
            r.loc == loc,
            r.link == link,
            r.keys@ == keys@,
            r.children@ == children@,
            is_max_of(r.high_key, keys@),
    {
        let mut high_key: u32 = keys[0];
        let mut at: usize = 0;
        let mut i: usize = 1;
        while i < keys.len()
            invariant
                1 <= i <= keys@.len(),
                at < keys@.len(),
                keys@[at as int] == high_key,
                forall|j: int| 0 <= j < i ==> keys@[j] <= high_key,
            decreases keys@.len() - i,
        {
            if keys[i] > high_key {
                high_key = keys[i];
                at = i;
            }
            i = i + 1;
        }
        assert(keys@.contains(keys@[at as int]));
        Node { leaf: true, order, loc, link, high_key, keys, children }
    }

    /// An empty leaf that is rightmost on its level.
    pub fn empty_leaf(order: u32, loc: ItemPtr) -> (r: Self)
        requires
            order >= 1,
        ensures
            r@ == empty_leaf_view(order, loc),
            r.wf(),
            r.leaf,
            r.order == order,
            r.loc == loc,
            r.link.is_null(),
            r.keys@.len() == 0,
            r.children@.len() == 0,
    {
        let r = Node {
            leaf: true,
            order,
            loc,
            link: ItemPtr::null(),
            high_key: 0,
            keys: Vec::new(),
            children: Vec::new(),
        };
        assert(r@.keys =~= Seq::<u32>::empty());
        assert(r@.children =~= Seq::<ItemPtr>::empty());
        r
    }
}

proof fn lemma_insert_at_slot(keys: Seq<u32>, key: u32, i: int, high: u32)
    requires
        strictly_ascending(keys),
        is_slot(keys, key, i),
        !(i < keys.len() && keys[i] == key),
        keys.len() > 0 ==> is_max_of(high, keys),
    ensures
        strictly_ascending(keys.insert(i, key)),
        is_max_of(if keys.len() == 0 || key > high { key } else { high }, keys.insert(i, key)),
{
    let nk = keys.insert(i, key);
    let h = if keys.len() == 0 || key > high { key } else { high };
    assert(nk[i] == key);
    assert forall|a: int, b: int| 0 <= a < b < nk.len() implies nk[a] < nk[b] by {
        if a < i && b > i {
            assert(nk[a] == keys[a] && nk[b] == keys[b - 1]);
        } else if a > i {
            assert(nk[a] == keys[a - 1] && nk[b] == keys[b - 1]);
        } else if b < i {
        } else if a == i {
            assert(nk[b] == keys[b - 1]);
            if i < keys.len() {
                assert(keys[i] <= keys[b - 1]);
            }
        } else {
            assert(nk[a] == keys[a]);
        }
    }
    if keys.len() > 0 {
        assert forall|j: int| 0 <= j < nk.len() implies nk[j] <= h by {
            if j < i {
                assert(nk[j] == keys[j]);
            } else if j > i {
                assert(nk[j] == keys[j - 1]);
            }
        }
        if h != key {
            let w = choose|w: int| 0 <= w < keys.len() && keys[w] == h;
            if w < i {
                assert(nk[w] == h);
            } else {
                assert(nk[w + 1] == h);
            }
        }
    }
    assert(nk.contains(h));
}

impl Node {
    fn slot(&self, key: u32) -> (r: usize)
        requires
            strictly_ascending(self.keys@),
        ensures
            is_slot(self.keys@, key, r as int),
    {
        let mut i: usize = 0;
        while i < self.keys.len() && self.keys[i] < key
            invariant
                i <= self.keys@.len(),
                forall|j: int| 0 <= j < i ==> self.keys@[j] < key,
            decreases self.keys@.len() - i,
        {
            i = i + 1;
        }
        i
    }

    /// What this node tells a search for `key`: move right when the key lies above it,
    /// else the leaf's record for the key, or the child whose range holds the key.
    pub fn search_step(&self, key: u32) -> (r: Step)
        requires
            self@.wf_shape(),
        ensures
            r == step_of(self@, key),
            must_move_right(self@, key) ==> r == Step::MoveRight(self.link),
            !must_move_right(self@, key) && self.leaf ==> match r {
                Step::Found(p) => exists|i: int|
                    0 <= i < self.keys@.len() && self.keys@[i] == key && self.children@[i] == p,
                Step::NotFound => !self.keys@.contains(key),
                _ => false,
            },
            !must_move_right(self@, key) && !self.leaf ==> match r {
                Step::Descend(p) => exists|i: int|
                    is_slot(self.keys@, key, i) && self.children@[i] == p,
                _ => false,
            },
    {
        if !self.link.is_null() && (self.keys.len() == 0 || key > self.high_key) {
            return Step::MoveRight(self.link);
        }
        let i = self.slot(key);
        proof {
            let c = choose|c: int| is_slot(self.keys@, key, c);
            lemma_slot_unique(self.keys@, key, i as int, c);
        }
        if self.leaf {
            if i < self.keys.len() && self.keys[i] == key {
                Step::Found(self.children[i])
            } else {
                proof {
                    assert forall|j: int| 0 <= j < self.keys@.len() implies self.keys@[j]
                        != key by {
                        if j >= i {
                            assert(self.keys@[i as int] <= self.keys@[j]);
                        }
                    }
                }
                Step::NotFound
            }
        } else {
            Step::Descend(self.children[i])
        }
    }

    /// Puts `key` with record pointer `value` into this leaf, in key order; where the key is
    /// there already, its record pointer is replaced. The high key becomes the largest key.
    pub fn insert_record(&mut self, key: u32, value: ItemPtr)
        requires
            old(self)@.wf(),
            old(self).leaf,
        ensures
            final(self)@.wf_shape(),
            final(self).keys@.len() <= final(self).order + 1,
            final(self).leaf,
            final(self).order == old(self).order,
            final(self).loc == old(self).loc,
            final(self).link == old(self).link,
            is_max_of(final(self).high_key, final(self).keys@),
            exists|i: int| #[trigger] record_put(old(self)@, final(self)@, key, value, i),
    {
        let i = self.slot(key);
        let ghost old_keys = self.keys@;
        let was_empty = self.keys.len() == 0;
        if i < self.keys.len() && self.keys[i] == key {
            self.children.set(i, value);
            assert(record_put(old(self)@, self@, key, value, i as int));
        } else {
            self.keys.insert(i, key);
            self.children.insert(i, value);
            if was_empty || key > self.high_key {
                self.high_key = key;
            }
            assert(record_put(old(self)@, self@, key, value, i as int));
            proof {
                lemma_insert_at_slot(old_keys, key, i as int, old(self).high_key);
                assert(is_slot(old_keys, key, i as int));
                assert(!(i < old_keys.len() && old_keys[i as int] == key));
            }
        }
    }
}

impl Node {
    /// Puts the separator `sep` into this internal node, with `right` as the child that
    /// follows it: the node that a split of the child before it produced. Returns `false`,
    /// leaving the node as it was, where the separator is there already.
    pub fn insert_separator(&mut self, sep: u32, right: ItemPtr) -> (r: bool)
        requires
            old(self)@.wf(),
            !old(self).leaf,
        ensures
            final(self)@.wf_shape(),
            final(self).keys@.len() <= final(self).order + 1,
            !final(self).leaf,
            final(self).order == old(self).order,
            final(self).loc == old(self).loc,
            final(self).link == old(self).link,
            is_max_of(final(self).high_key, final(self).keys@),
            r == !old(self).keys@.contains(sep),
            !r ==> final(self)@ == old(self)@,
            r ==> exists|i: int| #[trigger] separator_put(old(self)@, final(self)@, sep, right, i),
    {
        let i = self.slot(sep);
        if i < self.keys.len() && self.keys[i] == sep {
            return false;
        }
        proof {
            assert forall|j: int| 0 <= j < self.keys@.len() implies self.keys@[j] != sep by {
                if j >= i {
                    assert(self.keys@[i as int] <= self.keys@[j]);
                }
            }
            lemma_insert_at_slot(self.keys@, sep, i as int, self.high_key);
        }
        let was_empty = self.keys.len() == 0;
        let nc = self.children.len();
        assert(i < nc);
        self.keys.insert(i, sep);
        self.children.insert(i + 1, right);
        if was_empty || sep > self.high_key {
            self.high_key = sep;
        }
        assert(separator_put(old(self)@, self@, sep, right, i as int));
        true
    }

    /// Splits an overfull node. This node keeps the lower entries, takes the largest of
    /// them as its high key and links to the new node, whose page is `right_loc`; the new
    /// node, returned, takes the upper entries, the old high key and the old link. An
    /// internal node hands on the child that straddles the split with the upper entries.
    pub fn split(&mut self, right_loc: ItemPtr) -> (r: Node)
        requires
            old(self)@.wf_shape(),
            2 <= old(self).keys@.len() <= old(self).order + 1,
        ensures
            ({
                let o = old(self)@;
                let n = o.keys.len() as int;
                let m = split_point(n);
                let f = final(self)@;
                &&& f.wf() && r@.wf()
                &&& f.leaf == o.leaf && r.leaf == o.leaf
                &&& f.order == o.order && r.order == o.order
                &&& f.loc == o.loc && r.loc == right_loc
                &&& f.link == right_loc && r.link == o.link
                &&& f.keys == o.keys.subrange(0, m)
                &&& r.keys@ == o.keys.subrange(m, n)
                &&& f.high_key == o.keys[m - 1]
                &&& r.high_key == o.high_key
                &&& is_max_of(f.high_key, f.keys)
                &&& is_max_of(r.high_key, r.keys@)
                &&& if o.leaf {
                    &&& f.children == o.children.subrange(0, m)
                    &&& r.children@ == o.children.subrange(m, n)
                } else {
                    &&& f.children == o.children.subrange(0, m + 1)
                    &&& r.children@ == o.children.subrange(m, n + 1)
                }
            }),
    {
        let n = self.keys.len();
        let m = n - n / 2;
        let ghost o = self@;
        let right_keys = self.keys.split_off(m);
        let cut = if self.leaf { m } else { m + 1 };
        let mut right_children = self.children.split_off(cut);
        if !self.leaf {
            let shared = self.children[m];
            right_children.insert(0, shared);
        }
        let high_key = self.high_key;
        let link = self.link;
        self.high_key = self.keys[m - 1];
        self.link = right_loc;
        proof {
            assert(right_keys@ =~= o.keys.subrange(m as int, n as int));
            assert(o.keys.contains(o.high_key));
            let w = choose|w: int| 0 <= w < n && o.keys[w] == o.high_key;
            assert(o.keys[w] <= o.keys[n - 1]);
            assert(w == n - 1) by {
                if w < n - 1 {
                    assert(o.keys[w] < o.keys[n - 1]);
                }
            }
            assert(right_keys@[n - 1 - m] == o.high_key);
            assert(self.keys@.last() == self.keys@[m - 1]);
            if !o.leaf {
                assert(right_children@ =~= o.children.subrange(m as int, n + 1));
            } else {
                assert(right_children@ =~= o.children.subrange(m as int, n as int));
            }
        }
        Node {
            leaf: self.leaf,
            order: self.order,
            loc: right_loc,
            link,
            high_key,
            keys: right_keys,
            children: right_children,
        }
    }

    /// A root over two subtrees: `left` holds the keys up to `sep`, `right` those above it.
    pub fn new_root(order: u32, loc: ItemPtr, left: ItemPtr, sep: u32, right: ItemPtr) -> (r:
        Node)
        requires
            order >= 1,
        ensures
            r@.wf(),
            !r.leaf,
            r.order == order,
            r.loc == loc,
            r.link.is_null(),
            r.high_key == sep,
            r.keys@ == seq![sep],
            r.children@ == seq![left, right],
    {
        let mut keys: Vec<u32> = Vec::new();
        keys.push(sep);
        let mut children: Vec<ItemPtr> = Vec::new();
        children.push(left);
        children.push(right);
        assert(keys@[0] == sep);
        Node { leaf: false, order, loc, link: ItemPtr::null(), high_key: sep, keys, children }
    }

    /// Whether this node has the shape that the tree's rules ask of it (see `wf_shape`); a
    /// node read from a damaged page may not.
    pub fn check_shape(&self) -> (r: bool)
        ensures
            r == self@.wf_shape(),
    {
        if self.order < 1 {
            return false;
        }
        let nk = self.keys.len();
        let nc = self.children.len();
        if self.leaf {
            if nc != nk {
                return false;
            }
        } else if nk >= nc || nc - nk != 1 {
            return false;
        }
        let mut i: usize = 1;
        while i < nk
            invariant
                1 <= i || nk == 0,
                nk == self.keys@.len(),
                i <= nk || nk == 0,
                forall|a: int, b: int| 0 <= a < b < i && b < nk ==> self.keys@[a] < self.keys@[b],
            decreases nk - i,
        {
            if self.keys[i - 1] >= self.keys[i] {
                return false;
            }
            i = i + 1;
        }
        if nk > 0 {
            if self.high_key != self.keys[nk - 1] {
                proof {
                    if self@.wf_shape() {
                        let w = choose|w: int| 0 <= w < nk && self.keys@[w] == self.high_key;
                        assert(self.keys@[w] <= self.keys@[nk - 1]);
                        if w < nk - 1 {
                            assert(self.keys@[w] < self.keys@[nk - 1]);
                        }
                    }
                }
                return false;
            }
            proof {
                assert(self.keys@[nk - 1] == self.high_key);
                assert forall|j: int| 0 <= j < nk implies self.keys@[j] <= self.high_key by {
                    if j < nk - 1 {
                        assert(self.keys@[j] < self.keys@[nk - 1]);
                    }
                }
            }
        }
        true
    }

    /// The node holds more entries than its order allows, and must be split.
    pub fn needs_split(&self) -> (r: bool)
        ensures
            r == self@.overfull(),
    {
        self.keys.len() as u64 > self.order as u64
    }
}

} // verus!
