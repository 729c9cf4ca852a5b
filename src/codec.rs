use vstd::prelude::*;
use vstd::bytes::{
    lemma_auto_spec_u32_to_from_le_bytes, spec_u32_from_le_bytes, spec_u32_to_le_bytes,
    u32_from_le_bytes, u32_to_le_bytes,
};
use vstd::slice::slice_subrange;

use crate::node::{Node, NodeView};
use crate::ptr::ItemPtr;

verus! {

/// Size of a page on disk, in bytes.
pub const PAGE_SIZE: usize = 512;

/// Bytes before the keys: the leaf flag, then six little-endian words (order, own page,
/// right link, high key, number of keys, number of children).
pub const HEADER_SIZE: usize = 25;

/// Why a node could not be written to a page.
#[derive(Debug, PartialEq, Eq, Structural)]
pub enum EncodeError {
    /// The node's bytes do not fit in one page.
    CapacityExceeded,
}

/// Why a page could not be read as a node.
#[derive(Debug, PartialEq, Eq, Structural)]
pub enum DecodeError {
    /// The bytes are not the image of a node.
    Malformed,
}

/// The little-endian bytes of each word of `s`, one after the other.
pub open spec fn words_bytes(s: Seq<u32>) -> Seq<u8>
    decreases s.len(),
{
    if s.len() == 0 {
        Seq::empty()
    } else {
        words_bytes(s.drop_last()) + spec_u32_to_le_bytes(s.last())
    }
}

/// The page numbers of `s`, as stored: two's complement words.
pub open spec fn ptr_words(s: Seq<ItemPtr>) -> Seq<u32> {
    Seq::new(s.len(), |i: int| s[i].page_no as u32)
}

/// The little-endian word that starts at `pos` in `b`.
pub open spec fn word_at(b: Seq<u8>, pos: int) -> u32 {
    spec_u32_from_le_bytes(b.subrange(pos, pos + 4))
}

/// `n` consecutive words of `b`, starting at `pos`.
pub open spec fn words_from(b: Seq<u8>, pos: int, n: nat) -> Seq<u32> {
    Seq::new(n, |i: int| word_at(b, pos + 4 * i))
}

/// `n` consecutive page references of `b`, starting at `pos`.
pub open spec fn ptrs_from(b: Seq<u8>, pos: int, n: nat) -> Seq<ItemPtr> {
    Seq::new(n, |i: int| ItemPtr { page_no: word_at(b, pos + 4 * i) as i32 })
}

/// The bytes that stand for a node, before the page is padded.
pub open spec fn serialized(v: NodeView) -> Seq<u8> {
    seq![if v.leaf { 1u8 } else { 0u8 }]
        + spec_u32_to_le_bytes(v.order)
        + spec_u32_to_le_bytes(v.loc.page_no as u32)
        + spec_u32_to_le_bytes(v.link.page_no as u32)
        + spec_u32_to_le_bytes(v.high_key)
        + spec_u32_to_le_bytes(v.keys.len() as u32)
        + spec_u32_to_le_bytes(v.children.len() as u32)
        + words_bytes(v.keys)
        + words_bytes(ptr_words(v.children))
}

/// The number of bytes that stand for a node.
pub open spec fn serialized_len(v: NodeView) -> int {
    HEADER_SIZE + 4 * (v.keys.len() + v.children.len())
}

/// The node's bytes fit in one page.
pub open spec fn fits_page(v: NodeView) -> bool {
    serialized_len(v) <= PAGE_SIZE
}

/// The full page that holds a node: its bytes, then zeros.
pub open spec fn page_image(v: NodeView) -> Seq<u8> {
    serialized(v) + Seq::new((PAGE_SIZE - serialized_len(v)) as nat, |i: int| 0u8)
}

/// The node that a byte string stands for, if any. Bytes after the node are ignored.
pub open spec fn parse(b: Seq<u8>) -> Option<NodeView> {
    if b.len() < HEADER_SIZE || (b[0] != 0 && b[0] != 1) {
        None
    } else {
        let nk = word_at(b, 17) as int;
        let nc = word_at(b, 21) as int;
        if HEADER_SIZE + 4 * (nk + nc) > b.len() {
            None
        } else {
            Some(
                NodeView {
                    leaf: b[0] == 1,
                    order: word_at(b, 1),
                    loc: ItemPtr { page_no: word_at(b, 5) as i32 },
                    link: ItemPtr { page_no: word_at(b, 9) as i32 },
                    high_key: word_at(b, 13),
                    keys: words_from(b, HEADER_SIZE as int, nk as nat),
                    children: ptrs_from(b, HEADER_SIZE + 4 * nk, nc as nat),
                },
            )
        }
    }
}

proof fn lemma_words_bytes(s: Seq<u32>)
    ensures
        words_bytes(s).len() == 4 * s.len(),
        forall|i: int|
            0 <= i < s.len() ==> #[trigger] words_bytes(s).subrange(4 * i, 4 * i + 4)
                == spec_u32_to_le_bytes(s[i]),
    decreases s.len(),
{
    lemma_auto_spec_u32_to_from_le_bytes();
    if s.len() > 0 {
        let t = s.drop_last();
        lemma_words_bytes(t);
        let w = words_bytes(s);
        assert forall|i: int| 0 <= i < s.len() implies #[trigger] w.subrange(4 * i, 4 * i + 4)
            == spec_u32_to_le_bytes(s[i]) by {
            if i < t.len() {
                assert(w.subrange(4 * i, 4 * i + 4) =~= words_bytes(t).subrange(4 * i, 4 * i + 4));
            } else {
                assert(w.subrange(4 * i, 4 * i + 4) =~= spec_u32_to_le_bytes(s.last()));
            }
        }
    }
}

proof fn lemma_page_no_word(p: i32)
    ensures
        ((p as u32) as i32) == p,
{
    assert(((p as u32) as i32) == p) by (bit_vector);
}

proof fn lemma_serialized_len(v: NodeView)
    ensures
        serialized(v).len() == serialized_len(v),
{
    lemma_auto_spec_u32_to_from_le_bytes();
    lemma_words_bytes(v.keys);
    lemma_words_bytes(ptr_words(v.children));
}

/// A node is read back from any byte string that begins with its bytes.
pub proof fn lemma_parse_serialized(v: NodeView, b: Seq<u8>)
    requires
        fits_page(v),
        serialized_len(v) <= b.len(),
        b.subrange(0, serialized_len(v)) == serialized(v),
    ensures
        parse(b) == Some(v),
{
    lemma_auto_spec_u32_to_from_le_bytes();
    lemma_words_bytes(v.keys);
    lemma_words_bytes(ptr_words(v.children));
    let s = serialized(v);
    let nk = v.keys.len() as int;
    let nc = v.children.len() as int;
    assert(s.len() == serialized_len(v));
    assert forall|i: int| 0 <= i < s.len() implies b[i] == s[i] by {
        assert(b.subrange(0, serialized_len(v))[i] == b[i]);
    }
    assert(b.subrange(1, 5) =~= spec_u32_to_le_bytes(v.order));
    assert(b.subrange(5, 9) =~= spec_u32_to_le_bytes(v.loc.page_no as u32));
    assert(b.subrange(9, 13) =~= spec_u32_to_le_bytes(v.link.page_no as u32));
    assert(b.subrange(13, 17) =~= spec_u32_to_le_bytes(v.high_key));
    assert(b.subrange(17, 21) =~= spec_u32_to_le_bytes(v.keys.len() as u32));
    assert(b.subrange(21, 25) =~= spec_u32_to_le_bytes(v.children.len() as u32));
    lemma_page_no_word(v.loc.page_no);
    lemma_page_no_word(v.link.page_no);
    let kb = words_bytes(v.keys);
    let cb = words_bytes(ptr_words(v.children));
    assert forall|i: int| 0 <= i < nk implies #[trigger] word_at(b, HEADER_SIZE + 4 * i)
        == v.keys[i] by {
        assert(b.subrange(HEADER_SIZE + 4 * i, HEADER_SIZE + 4 * i + 4) =~= kb.subrange(
            4 * i,
            4 * i + 4,
        ));
    }
    assert(words_from(b, HEADER_SIZE as int, nk as nat) =~= v.keys);
    assert forall|i: int| 0 <= i < nc implies #[trigger] word_at(
        b,
        HEADER_SIZE + 4 * nk + 4 * i,
    ) == v.children[i].page_no as u32 by {
        assert(b.subrange(HEADER_SIZE + 4 * nk + 4 * i, HEADER_SIZE + 4 * nk + 4 * i + 4)
            =~= cb.subrange(4 * i, 4 * i + 4));
        assert(ptr_words(v.children)[i] == v.children[i].page_no as u32);
    }
    assert forall|i: int| 0 <= i < nc implies #[trigger] ptrs_from(
        b,
        HEADER_SIZE + 4 * nk,
        nc as nat,
    )[i] == v.children[i] by {
        lemma_page_no_word(v.children[i].page_no);
    }
    assert(ptrs_from(b, HEADER_SIZE + 4 * nk, nc as nat) =~= v.children);
}

/// Decoding the page image of a node that fits gives the node back.
pub proof fn lemma_round_trip(v: NodeView)
    requires
        fits_page(v),
    ensures
        page_image(v).len() == PAGE_SIZE,
        parse(page_image(v)) == Some(v),
        parse(serialized(v)) == Some(v),
{
    lemma_words_bytes(v.keys);
    lemma_words_bytes(ptr_words(v.children));
    lemma_auto_spec_u32_to_from_le_bytes();
    let s = serialized(v);
    assert(s.len() == serialized_len(v));
    assert(page_image(v).subrange(0, serialized_len(v)) =~= s);
    assert(s.subrange(0, serialized_len(v)) =~= s);
    lemma_parse_serialized(v, page_image(v));
    lemma_parse_serialized(v, s);
}

fn push_word(out: &mut Vec<u8>, x: u32)
    ensures
        final(out)@ == old(out)@ + spec_u32_to_le_bytes(x),
{
    let mut b = u32_to_le_bytes(x);
    out.append(&mut b);
}

fn read_word(b: &[u8], pos: usize) -> (r: u32)
    requires
        pos + 4 <= b@.len(),
    ensures
        r == word_at(b@, pos as int),
{
    let len = b.len();
    assert(pos + 4 <= len);
    u32_from_le_bytes(slice_subrange(b, pos, pos + 4))
}

/// Parses `b` as the bytes of a node.
fn decode_slice(b: &[u8]) -> (r: Result<Node, DecodeError>)
    ensures
        match r {
            Ok(n) => parse(b@) == Some(n@),
            Err(e) => parse(b@) is None && e == DecodeError::Malformed,
        },
{
    let len = b.len();
    if len < HEADER_SIZE {
        return Err(DecodeError::Malformed);
    }
    let flag = b[0];
    if flag != 0 && flag != 1 {
        return Err(DecodeError::Malformed);
    }
    let order = read_word(b, 1);
    let loc = read_word(b, 5);
    let link = read_word(b, 9);
    let high_key = read_word(b, 13);
    let nk = read_word(b, 17);
    let nc = read_word(b, 21);
    let need: u64 = HEADER_SIZE as u64 + 4 * (nk as u64 + nc as u64);
    if need > len as u64 {
        return Err(DecodeError::Malformed);
    }
    let nk = nk as usize;
    let nc = nc as usize;
    let mut keys: Vec<u32> = Vec::new();
    let mut i: usize = 0;
    while i < nk
        invariant
            i <= nk,
            HEADER_SIZE + 4 * (nk + nc) <= len,
            len == b@.len(),
            keys@ =~= words_from(b@, HEADER_SIZE as int, i as nat),
        decreases nk - i,
    {
        keys.push(read_word(b, HEADER_SIZE + 4 * i));
        i = i + 1;
    }
    let base = HEADER_SIZE + 4 * nk;
    let mut children: Vec<ItemPtr> = Vec::new();
    let mut j: usize = 0;
    while j < nc
        invariant
            j <= nc,
            base == HEADER_SIZE + 4 * nk,
            HEADER_SIZE + 4 * (nk + nc) <= len,
            len == b@.len(),
            children@ =~= ptrs_from(b@, base as int, j as nat),
        decreases nc - j,
    {
        let w = read_word(b, base + 4 * j);
        children.push(ItemPtr::new(w as i32));
        j = j + 1;
    }
    Ok(
        Node {
            leaf: flag == 1,
            order,
            loc: ItemPtr::new(loc as i32),
            link: ItemPtr::new(link as i32),
            high_key,
            keys,
            children,
        },
    )
}

impl Node {
    /// The bytes that stand for this node, before padding, or `CapacityExceeded` where they
    /// would not fit in one page.
    fn serialize(&self) -> (r: Result<Vec<u8>, EncodeError>)
        ensures
            match r {
                Ok(b) => fits_page(self@) && b@ == serialized(self@),
                Err(e) => !fits_page(self@) && e == EncodeError::CapacityExceeded,
            },
    {
        let nk = self.keys.len();
        let nc = self.children.len();
        if nk > PAGE_SIZE || nc > PAGE_SIZE || HEADER_SIZE + 4 * (nk + nc) > PAGE_SIZE {
            return Err(EncodeError::CapacityExceeded);
        }
        let mut out: Vec<u8> = Vec::new();
        out.push(if self.leaf { 1u8 } else { 0u8 });
        push_word(&mut out, self.order);
        push_word(&mut out, self.loc.page_no as u32);
        push_word(&mut out, self.link.page_no as u32);
        push_word(&mut out, self.high_key);
        push_word(&mut out, nk as u32);
        push_word(&mut out, nc as u32);
        let ghost head = out@;
        let mut i: usize = 0;
        while i < nk
            invariant
                i <= nk,
                nk == self.keys@.len(),
                out@ == head + words_bytes(self.keys@.subrange(0, i as int)),
            decreases nk - i,
        {
            push_word(&mut out, self.keys[i]);
            proof {
                assert(self.keys@.subrange(0, i as int + 1).drop_last() =~= self.keys@.subrange(
                    0,
                    i as int,
                ));
            }
            i = i + 1;
        }
        assert(self.keys@.subrange(0, nk as int) =~= self.keys@);
        let ghost mid = out@;
        let ghost pw = ptr_words(self.children@);
        let mut j: usize = 0;
        while j < nc
            invariant
                j <= nc,
                nc == self.children@.len(),
                pw == ptr_words(self.children@),
                out@ == mid + words_bytes(pw.subrange(0, j as int)),
            decreases nc - j,
        {
            push_word(&mut out, self.children[j].page_no as u32);
            proof {
                assert(pw.subrange(0, j as int + 1).drop_last() =~= pw.subrange(0, j as int));
            }
            j = j + 1;
        }
        assert(pw.subrange(0, nc as int) =~= pw);
        assert(out@ =~= serialized(self@));
        Ok(out)
    }

    /// The page that holds this node, as a vector of `PAGE_SIZE` bytes: its bytes, then
    /// zeros. Fails with `CapacityExceeded` where the node does not fit; nothing is cut off.
    pub fn encode(&self) -> (r: Result<Vec<u8>, EncodeError>)
        ensures
            match r {
                Ok(b) => fits_page(self@) && b@ == page_image(self@) && b@.len() == PAGE_SIZE,
                Err(e) => !fits_page(self@) && e == EncodeError::CapacityExceeded,
            },
    {
        let mut out = match self.serialize() {
            Ok(b) => b,
            Err(e) => return Err(e),
        };
        proof {
            lemma_serialized_len(self@);
        }
        let ghost head = out@;
        while out.len() < PAGE_SIZE
            invariant
                head == serialized(self@),
                head.len() <= out@.len() <= PAGE_SIZE,
                out@.subrange(0, head.len() as int) == head,
                forall|k: int| head.len() <= k < out@.len() ==> out@[k] == 0u8,
            decreases PAGE_SIZE - out@.len(),
        {
            out.push(0u8);
            assert(out@.subrange(0, head.len() as int) =~= head);
        }
        assert(out@ =~= page_image(self@));
        Ok(out)
    }

    /// Reads a node from the page that `encode` produced, or from a page that begins with them.
    pub fn decode(bytes: &Vec<u8>) -> (r: Result<Node, DecodeError>)
        ensures
            match r {
                Ok(n) => parse(bytes@) == Some(n@),
                Err(e) => parse(bytes@) is None && e == DecodeError::Malformed,
            },
    {
        decode_slice(bytes.as_slice())
    }

    /// The page that holds this node: its bytes, then zeros. Fails with `CapacityExceeded`,
    /// and writes nothing, where the node does not fit.
    pub fn into_buffer(&self) -> (r: Result<[u8; 512], EncodeError>)
        ensures
            match r {
                Ok(page) => fits_page(self@) && page@ == page_image(self@),
                Err(e) => !fits_page(self@) && e == EncodeError::CapacityExceeded,
            },
    {
        let bytes = match self.serialize() {
            Ok(b) => b,
            Err(e) => return Err(e),
        };
        proof {
            lemma_serialized_len(self@);
        }
        let mut page = [0u8; 512];
        let n = bytes.len();
        let mut i: usize = 0;
        while i < n
            invariant
                i <= n,
                n == bytes@.len(),
                n <= PAGE_SIZE,
                forall|k: int| 0 <= k < i ==> page@[k] == bytes@[k],
                forall|k: int| i <= k < PAGE_SIZE ==> page@[k] == 0u8,
            decreases n - i,
        {
            page[i] = bytes[i];
            i = i + 1;
        }
        assert(page@ =~= page_image(self@));
        Ok(page)
    }

    /// Reads the node that a page holds.
    pub fn from_buffer(bytes: &[u8; 512]) -> (r: Result<Node, DecodeError>)
        ensures
            match r {
                Ok(n) => parse(bytes@) == Some(n@),
                Err(e) => parse(bytes@) is None && e == DecodeError::Malformed,
            },
    {
        decode_slice(bytes.as_slice())
    }
}

} // verus!
